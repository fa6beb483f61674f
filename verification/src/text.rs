//! Text as sequences of characters: splitting, trimming, numbers and order.

use vstd::prelude::*;

verus! {

/// `String::push` appends one character and keeps what was there.
pub assume_specification[ String::push ](string: &mut String, c: char)
    ensures
        final(string)@ == old(string)@.push(c),
;

/// `char::from_u32` gives the character of a Unicode scalar value, and nothing
/// for a surrogate or a number above the Unicode range.
pub assume_specification[ char::from_u32 ](code: u32) -> (c: Option<char>)
    ensures
        match c {
            Some(found) => found as u32 == code,
            None => 0xd800 <= code <= 0xdfff || code > 0x10ffff,
        },
;

/// `String::from_utf8` gives the text that bytes encode, and fails where they are
/// not UTF-8.
#[verifier::external_body]
pub(crate) fn decode_text(data: Vec<u8>) -> (decoded: Option<String>)
    ensures
        match decoded {
            Some(string) => vstd::utf8::valid_utf8(data@) && string@ == vstd::utf8::decode_utf8(
                data@,
            ),
            None => !vstd::utf8::valid_utf8(data@),
        },
{
    String::from_utf8(data).ok()
}

// ---------------------------------------------------------------------------
// Characters
// ---------------------------------------------------------------------------

/// The characters of the Unicode property White_Space.
pub open spec fn is_white(c: char) -> bool {
    ||| '\u{9}' <= c <= '\u{d}'
    ||| c == ' '
    ||| c == '\u{85}'
    ||| c == '\u{a0}'
    ||| c == '\u{1680}'
    ||| '\u{2000}' <= c <= '\u{200a}'
    ||| c == '\u{2028}'
    ||| c == '\u{2029}'
    ||| c == '\u{202f}'
    ||| c == '\u{205f}'
    ||| c == '\u{3000}'
}

pub fn white(c: char) -> (is: bool)
    ensures
        is == is_white(c),
{
    ('\u{9}' <= c && c <= '\u{d}') || c == ' ' || c == '\u{85}' || c == '\u{a0}' || c
        == '\u{1680}' || ('\u{2000}' <= c && c <= '\u{200a}') || c == '\u{2028}' || c == '\u{2029}'
        || c == '\u{202f}' || c == '\u{205f}' || c == '\u{3000}'
}

/// The control characters: the first 32, and those from DELETE up to U+009F.
pub open spec fn is_control(c: char) -> bool {
    c < ' ' || '\u{7f}' <= c <= '\u{9f}'
}

pub fn control(c: char) -> (is: bool)
    ensures
        is == is_control(c),
{
    c < ' ' || ('\u{7f}' <= c && c <= '\u{9f}')
}

pub open spec fn is_ascii(c: char) -> bool {
    c < '\u{80}'
}

pub fn ascii(c: char) -> (is: bool)
    ensures
        is == is_ascii(c),
{
    c <= '\u{7f}'
}

pub open spec fn is_ascii_digit(c: char) -> bool {
    '0' <= c <= '9'
}

pub open spec fn is_ascii_letter(c: char) -> bool {
    'a' <= c <= 'z' || 'A' <= c <= 'Z'
}

pub open spec fn is_ascii_alphanumeric(c: char) -> bool {
    is_ascii_digit(c) || is_ascii_letter(c)
}

pub fn ascii_digit(c: char) -> (is: bool)
    ensures
        is == is_ascii_digit(c),
{
    '0' <= c && c <= '9'
}

pub fn ascii_alphanumeric(c: char) -> (is: bool)
    ensures
        is == is_ascii_alphanumeric(c),
{
    ascii_digit(c) || ('a' <= c && c <= 'z') || ('A' <= c && c <= 'Z')
}

/// `c`, with an ASCII capital letter made small.
pub open spec fn lowered_char(c: char) -> char {
    if 'A' <= c <= 'Z' {
        ((c as u8) + 32) as char
    } else {
        c
    }
}

/// `s`, with each ASCII capital letter made small.
pub open spec fn lowered(s: Seq<char>) -> Seq<char> {
    s.map_values(|c: char| lowered_char(c))
}

pub fn lower_char(c: char) -> (small: char)
    ensures
        small == lowered_char(c),
{
    if 'A' <= c && c <= 'Z' {
        ((c as u8) + 32) as char
    } else {
        c
    }
}

pub fn lower(s: &[char]) -> (small: Vec<char>)
    ensures
        small@ == lowered(s@),
{
    let mut small: Vec<char> = Vec::new();
    let mut i: usize = 0;
    while i < s.len()
        invariant
            i <= s@.len(),
            small@ == lowered(s@.take(i as int)),
        decreases s@.len() - i,
    {
        small.push(lower_char(s[i]));
        i += 1;
        assert(lowered(s@.take(i as int)) =~= small@);
    }
    assert(s@.take(i as int) == s@);
    small
}

// ---------------------------------------------------------------------------
// Strings and characters
// ---------------------------------------------------------------------------

pub fn chars_of(text: &str) -> (chars: Vec<char>)
    ensures
        chars@ == text@,
{
    let mut chars: Vec<char> = Vec::new();
    for c in iter: text.chars()
        invariant
            iter.seq() == text@,
            chars@ == text@.take(iter.index() as int),
    {
        chars.push(c);
        assert(text@.take(iter.index() + 1) == text@.take(iter.index() as int).push(c));
    }
    assert(text@.take(text@.len() as int) == text@);
    chars
}

pub fn push_chars(out: &mut String, chars: &[char])
    ensures
        final(out)@ == old(out)@ + chars@,
{
    let mut i: usize = 0;
    while i < chars.len()
        invariant
            i <= chars@.len(),
            out@ == old(out)@ + chars@.take(i as int),
        decreases chars@.len() - i,
    {
        out.push(chars[i]);
        i += 1;
        assert(old(out)@ + chars@.take(i as int) =~= out@);
    }
    assert(chars@.take(i as int) == chars@);
}

pub fn string_of(chars: &[char]) -> (text: String)
    ensures
        text@ == chars@,
{
    let mut text: String = String::new();
    push_chars(&mut text, chars);
    text
}

pub fn append_chars(out: &mut Vec<char>, chars: &[char])
    ensures
        final(out)@ == old(out)@ + chars@,
{
    let mut i: usize = 0;
    while i < chars.len()
        invariant
            i <= chars@.len(),
            out@ == old(out)@ + chars@.take(i as int),
        decreases chars@.len() - i,
    {
        out.push(chars[i]);
        i += 1;
    }
    assert(chars@.take(i as int) == chars@);
}

pub fn append_text(out: &mut Vec<char>, text: &str)
    ensures
        final(out)@ == old(out)@ + text@,
{
    append_chars(out, chars_of(text).as_slice())
}

pub fn same_chars(a: &[char], b: &[char]) -> (same: bool)
    ensures
        same == (a@ == b@),
{
    if a.len() != b.len() {
        return false;
    }
    let mut i: usize = 0;
    while i < a.len()
        invariant
            i <= a@.len(),
            a@.len() == b@.len(),
            forall|k: int| 0 <= k < i ==> a@[k] == b@[k],
        decreases a@.len() - i,
    {
        if a[i] != b[i] {
            return false;
        }
        i += 1;
    }
    assert(a@ =~= b@);
    true
}

pub fn same_text(a: &str, b: &str) -> (same: bool)
    ensures
        same == (a@ == b@),
{
    same_chars(chars_of(a).as_slice(), chars_of(b).as_slice())
}

pub fn is_text(chars: &[char], text: &str) -> (same: bool)
    ensures
        same == (chars@ == text@),
{
    same_chars(chars, chars_of(text).as_slice())
}

pub fn copy_chars(chars: &[char]) -> (copy: Vec<char>)
    ensures
        copy@ == chars@,
{
    let mut copy: Vec<char> = Vec::new();
    append_chars(&mut copy, chars);
    copy
}

/// The texts of a list of strings.
pub open spec fn texts(list: Seq<String>) -> Seq<Seq<char>> {
    list.map_values(|s: String| s@)
}

/// The character sequences of a list of them.
pub open spec fn pieces(list: Seq<Vec<char>>) -> Seq<Seq<char>> {
    list.map_values(|s: Vec<char>| s@)
}

/// True when `s` begins with `prefix`.
pub open spec fn begins_with(s: Seq<char>, prefix: Seq<char>) -> bool {
    prefix.len() <= s.len() && s.take(prefix.len() as int) == prefix
}

/// True when `s` ends with `suffix`.
pub open spec fn ends_with(s: Seq<char>, suffix: Seq<char>) -> bool {
    suffix.len() <= s.len() && s.skip(s.len() - suffix.len()) == suffix
}

pub fn starts(s: &[char], prefix: &str) -> (is: bool)
    ensures
        is == begins_with(s@, prefix@),
{
    let wanted = chars_of(prefix);
    wanted.len() <= s.len() && same_chars(&s[0..wanted.len()], wanted.as_slice())
}

pub fn ends(s: &[char], suffix: &str) -> (is: bool)
    ensures
        is == ends_with(s@, suffix@),
{
    let wanted = chars_of(suffix);
    wanted.len() <= s.len() && same_chars(&s[s.len() - wanted.len()..s.len()], wanted.as_slice())
}

pub fn contains_char(s: &[char], c: char) -> (found: bool)
    ensures
        found == s@.contains(c),
{
    let mut i: usize = 0;
    while i < s.len()
        invariant
            i <= s@.len(),
            forall|k: int| 0 <= k < i ==> s@[k] != c,
        decreases s@.len() - i,
    {
        if s[i] == c {
            return true;
        }
        i += 1;
    }
    false
}

// ---------------------------------------------------------------------------
// Trimming and splitting
// ---------------------------------------------------------------------------

/// `s` without its leading white space.
pub open spec fn trimmed_start(s: Seq<char>) -> Seq<char>
    decreases s.len(),
{
    if s.len() > 0 && is_white(s[0]) {
        trimmed_start(s.skip(1))
    } else {
        s
    }
}

/// `s` without its trailing white space.
pub open spec fn trimmed_end(s: Seq<char>) -> Seq<char>
    decreases s.len(),
{
    if s.len() > 0 && is_white(s.last()) {
        trimmed_end(s.drop_last())
    } else {
        s
    }
}

/// `s` without leading and trailing white space.
pub open spec fn trimmed(s: Seq<char>) -> Seq<char> {
    trimmed_end(trimmed_start(s))
}

pub fn trim_start(s: &[char]) -> (rest: &[char])
    ensures
        rest@ == trimmed_start(s@),
{
    let mut i: usize = 0;
    assert(s@.skip(0) == s@);
    while i < s.len() && white(s[i])
        invariant
            i <= s@.len(),
            trimmed_start(s@) == trimmed_start(s@.skip(i as int)),
        decreases s@.len() - i,
    {
        assert(s@.skip(i as int).skip(1) == s@.skip(i + 1));
        i += 1;
    }
    assert(s@.skip(i as int) == s@.subrange(i as int, s@.len() as int));
    &s[i..s.len()]
}

pub fn trim_end(s: &[char]) -> (rest: &[char])
    ensures
        rest@ == trimmed_end(s@),
{
    let mut n: usize = s.len();
    assert(s@.take(n as int) == s@);
    while n > 0 && white(s[n - 1])
        invariant
            n <= s@.len(),
            trimmed_end(s@) == trimmed_end(s@.take(n as int)),
        decreases n,
    {
        assert(s@.take(n as int).drop_last() == s@.take(n - 1));
        n -= 1;
    }
    &s[0..n]
}

pub fn trim(s: &[char]) -> (rest: &[char])
    ensures
        rest@ == trimmed(s@),
{
    trim_end(trim_start(s))
}

/// The first position from `from` on that holds `c`, or the length of `s`.
pub open spec fn position(s: Seq<char>, c: char, from: int) -> int
    decreases s.len() - from,
{
    if from < 0 || from >= s.len() {
        s.len() as int
    } else if s[from] == c {
        from
    } else {
        position(s, c, from + 1)
    }
}

/// `position` gives an index at which `c` stands, or the length where there is
/// none, and nothing before it holds `c`.
pub proof fn lemma_position(s: Seq<char>, c: char, from: int)
    requires
        0 <= from <= s.len(),
    ensures
        from <= position(s, c, from) <= s.len(),
        position(s, c, from) < s.len() ==> s[position(s, c, from)] == c,
        forall|k: int| from <= k < position(s, c, from) ==> s[k] != c,
    decreases s.len() - from,
{
    if from < s.len() && s[from] != c {
        lemma_position(s, c, from + 1);
    }
}

pub fn find_char(s: &[char], c: char, from: usize) -> (at: usize)
    requires
        from <= s@.len(),
    ensures
        at == position(s@, c, from as int),
        from <= at <= s@.len(),
        at < s@.len() ==> s@[at as int] == c,
{
    let mut i: usize = from;
    while i < s.len() && s[i] != c
        invariant
            from <= i <= s@.len(),
            position(s@, c, from as int) == position(s@, c, i as int),
        decreases s@.len() - i,
    {
        i += 1;
    }
    i
}

/// The pieces of `s` between the places that hold `c`.
pub open spec fn split(s: Seq<char>, c: char) -> Seq<Seq<char>>
    decreases s.len(),
{
    let at = position(s, c, 0);
    if 0 <= at < s.len() {
        seq![s.take(at)] + split(s.skip(at + 1), c)
    } else {
        seq![s]
    }
}

/// What stands before and after the first `c` of `s`.
pub open spec fn halves(s: Seq<char>, c: char) -> Option<(Seq<char>, Seq<char>)> {
    let at = position(s, c, 0);
    if at < s.len() {
        Some((s.take(at), s.skip(at + 1)))
    } else {
        None
    }
}

pub fn split_at_first<'a>(s: &'a [char], c: char) -> (found: Option<(&'a [char], &'a [char])>)
    ensures
        match found {
            Some((left, right)) => halves(s@, c) == Some((left@, right@)),
            None => halves(s@, c) is None,
        },
{
    let at: usize = find_char(s, c, 0);
    if at < s.len() {
        assert(s@.skip(at + 1) == s@.subrange(at + 1, s@.len() as int));
        Some((&s[0..at], &s[at + 1..s.len()]))
    } else {
        None
    }
}

pub fn split_char(s: &[char], c: char) -> (list: Vec<Vec<char>>)
    ensures
        pieces(list@) == split(s@, c),
        list@.len() > 0,
{
    let mut list: Vec<Vec<char>> = Vec::new();
    let mut from: usize = 0;
    assert(s@.skip(0) == s@);
    assert(pieces(list@) + split(s@, c) =~= split(s@, c));
    loop
        invariant
            from <= s@.len(),
            split(s@, c) == pieces(list@) + split(s@.skip(from as int), c),
        decreases s@.len() - from,
    {
        let ghost rest = s@.skip(from as int);
        let rest_slice = &s[from..s.len()];
        assert(rest_slice@ == rest);
        let at: usize = find_char(rest_slice, c, 0);
        let piece = copy_chars(&rest_slice[0..at]);
        if at >= rest_slice.len() {
            assert(piece@ == rest);
            list.push(piece);
            assert(pieces(list@) =~= split(s@, c));
            return list;
        }
        let ghost before = list@;
        list.push(piece);
        assert(pieces(list@) =~= pieces(before) + seq![rest.take(at as int)]);
        assert(rest.skip(at + 1) == s@.skip(from + at + 1));
        assert(split(s@, c) =~= pieces(list@) + split(s@.skip(from + at + 1), c));
        from = from + at + 1;
    }
}

/// The first place from `from` on at which a text stands in `s`.
pub open spec fn text_position(s: Seq<char>, needle: Seq<char>, from: int) -> Option<int>
    decreases s.len() - from,
{
    if from < 0 || from + needle.len() > s.len() {
        None
    } else if s.subrange(from, from + needle.len()) == needle {
        Some(from)
    } else if from == s.len() {
        None
    } else {
        text_position(s, needle, from + 1)
    }
}

pub fn find_text(s: &[char], needle: &[char]) -> (at: Option<usize>)
    ensures
        match at {
            Some(found) => text_position(s@, needle@, 0) == Some(found as int) && found
                + needle@.len() <= s@.len(),
            None => text_position(s@, needle@, 0) is None,
        },
{
    let mut at: usize = 0;
    while at <= s.len() && needle.len() <= s.len() - at
        invariant
            at <= s@.len() + 1,
            text_position(s@, needle@, 0) == text_position(s@, needle@, at as int),
        decreases s@.len() + 1 - at,
    {
        if same_chars(&s[at..at + needle.len()], needle) {
            return Some(at);
        }
        if at == s.len() {
            return None;
        }
        at += 1;
    }
    None
}

/// The lines of `s`, without their line endings. A carriage return belongs to a
/// line ending only before a line feed.
pub open spec fn lines(s: Seq<char>) -> Seq<Seq<char>> {
    let list = split(s, '\n');
    let ended = list.drop_last().map_values(|line: Seq<char>| without_return(line));
    if list.last().len() == 0 {
        ended
    } else {
        ended.push(list.last())
    }
}

/// A line without the carriage return that ends it.
pub open spec fn without_return(line: Seq<char>) -> Seq<char> {
    if line.len() > 0 && line.last() == '\r' {
        line.drop_last()
    } else {
        line
    }
}

pub fn split_lines(s: &[char]) -> (list: Vec<Vec<char>>)
    ensures
        pieces(list@) == lines(s@),
{
    let raw = split_char(s, '\n');
    let n: usize = raw.len() - 1;
    let mut list: Vec<Vec<char>> = Vec::new();
    let mut i: usize = 0;
    while i < n
        invariant
            i <= n < raw@.len(),
            list@.len() == i,
            forall|k: int|
                0 <= k < i ==> (#[trigger] list@[k])@ == without_return(raw@[k]@),
        decreases n - i,
    {
        let line = raw[i].as_slice();
        let m: usize = line.len();
        if m > 0 && line[m - 1] == '\r' {
            list.push(copy_chars(&line[0..m - 1]));
            assert(line@.subrange(0, m - 1) == line@.drop_last());
        } else {
            list.push(copy_chars(line));
        }
        i += 1;
    }
    assert(pieces(raw@).last() == raw@.last()@);
    let ghost ended = pieces(raw@).drop_last().map_values(|line: Seq<char>| without_return(line));
    assert(pieces(list@) =~= ended);
    if raw[n].len() > 0 {
        list.push(copy_chars(raw[n].as_slice()));
        assert(pieces(list@) =~= ended.push(raw@[n as int]@));
    }
    list
}

/// The first position from `from` on that holds white space, or the length.
pub open spec fn white_position(s: Seq<char>, from: int) -> int
    decreases s.len() - from,
{
    if from < 0 || from >= s.len() {
        s.len() as int
    } else if is_white(s[from]) {
        from
    } else {
        white_position(s, from + 1)
    }
}

/// `white_position` stays between `from` and the end of `s`.
pub proof fn lemma_white_position(s: Seq<char>, from: int)
    requires
        0 <= from <= s.len(),
    ensures
        from <= white_position(s, from) <= s.len(),
    decreases s.len() - from,
{
    if from < s.len() && !is_white(s[from]) {
        lemma_white_position(s, from + 1);
    }
}

/// Trimming never lengthens a text.
pub proof fn lemma_trimmed_start(s: Seq<char>)
    ensures
        trimmed_start(s).len() <= s.len(),
        trimmed_start(s).len() > 0 ==> !is_white(trimmed_start(s)[0]),
    decreases s.len(),
{
    if s.len() > 0 && is_white(s[0]) {
        lemma_trimmed_start(s.skip(1));
    }
}

/// The words of `s`, which white space parts.
pub open spec fn words(s: Seq<char>) -> Seq<Seq<char>>
    decreases s.len(),
    via words_decreases
{
    let rest = trimmed_start(s);
    if rest.len() == 0 {
        seq![]
    } else {
        let end = white_position(rest, 0);
        seq![rest.take(end)] + words(rest.skip(end))
    }
}

#[via_fn]
proof fn words_decreases(s: Seq<char>) {
    let rest = trimmed_start(s);
    lemma_trimmed_start(s);
    if rest.len() > 0 {
        assert(!is_white(rest[0]));
        lemma_white_position(rest, 1);
        assert(white_position(rest, 0) >= 1);
    }
}

pub fn split_words(s: &[char]) -> (list: Vec<Vec<char>>)
    ensures
        pieces(list@) == words(s@),
{
    let mut list: Vec<Vec<char>> = Vec::new();
    let mut rest: &[char] = trim_start(s);
    proof {
        lemma_trim_twice(s@);
    }
    assert(words(s@) =~= pieces(list@) + words(rest@)) by {
        if rest@.len() == 0 {
            assert(words(s@) == Seq::<Seq<char>>::empty());
            assert(words(rest@) == Seq::<Seq<char>>::empty());
        }
    }
    while rest.len() > 0
        invariant
            words(s@) == pieces(list@) + words(rest@),
            trimmed_start(rest@) == rest@,
        decreases rest@.len(),
    {
        let ghost whole = rest@;
        let mut end: usize = 0;
        while end < rest.len() && !white(rest[end])
            invariant
                end <= rest@.len(),
                rest@ == whole,
                white_position(rest@, 0) == white_position(rest@, end as int),
            decreases rest@.len() - end,
        {
            end += 1;
        }
        proof {
            lemma_trimmed_start(whole);
            assert(end == white_position(whole, 0));
            if end == 0 {
                assert(is_white(whole[0]));
            }
        }
        let ghost before = list@;
        list.push(copy_chars(&rest[0..end]));
        assert(pieces(list@) =~= pieces(before) + seq![whole.take(end as int)]);
        let tail = &rest[end..rest.len()];
        assert(tail@ == whole.skip(end as int));
        let next = trim_start(tail);
        proof {
            lemma_trim_twice(tail@);
            lemma_trimmed_start(tail@);
            assert(words(tail@) =~= words(next@)) by {
                if next@.len() == 0 {
                    assert(words(tail@) == Seq::<Seq<char>>::empty());
                    assert(words(next@) == Seq::<Seq<char>>::empty());
                }
            }
            assert(pieces(before) + (seq![whole.take(end as int)] + words(tail@)) =~= pieces(list@)
                + words(tail@));
        }
        rest = next;
    }
    assert(words(rest@) == Seq::<Seq<char>>::empty());
    assert(pieces(list@) + words(rest@) =~= pieces(list@));
    list
}

/// Trimming a second time changes nothing.
pub proof fn lemma_trim_twice(s: Seq<char>)
    ensures
        trimmed_start(trimmed_start(s)) == trimmed_start(s),
    decreases s.len(),
{
    if s.len() > 0 && is_white(s[0]) {
        lemma_trim_twice(s.skip(1));
    }
}

// ---------------------------------------------------------------------------
// Numbers
// ---------------------------------------------------------------------------

/// The value of a digit in any radix up to 36.
pub open spec fn digit_value(c: char) -> Option<nat> {
    if '0' <= c <= '9' {
        Some((c as u32 - '0' as u32) as nat)
    } else if 'a' <= c <= 'z' {
        Some((c as u32 - 'a' as u32 + 10) as nat)
    } else if 'A' <= c <= 'Z' {
        Some((c as u32 - 'A' as u32 + 10) as nat)
    } else {
        None
    }
}

/// True when `c` is a digit in the radix.
pub open spec fn is_digit_in(c: char, radix: nat) -> bool {
    match digit_value(c) {
        Some(d) => d < radix,
        None => false,
    }
}

/// The number that the digits `s` write, most significant first.
pub open spec fn digits_value(s: Seq<char>, radix: nat) -> nat
    decreases s.len(),
{
    if s.len() == 0 {
        0
    } else {
        digits_value(s.drop_last(), radix) * radix + digit_value(s.last())->0
    }
}

/// True when `s` is one digit or more and nothing else.
pub open spec fn all_digits(s: Seq<char>, radix: nat) -> bool {
    s.len() > 0 && forall|i: int| 0 <= i < s.len() ==> is_digit_in(#[trigger] s[i], radix)
}

/// What may stand before the digits of an unsigned number: nothing, or a plus.
pub open spec fn without_plus(s: Seq<char>) -> Seq<char> {
    if s.len() > 0 && s[0] == '+' {
        s.skip(1)
    } else {
        s
    }
}

/// The unsigned number that `s` writes in the radix, up to `max`.
pub open spec fn unsigned(s: Seq<char>, radix: nat, max: nat) -> Option<nat> {
    let digits = without_plus(s);
    if all_digits(digits, radix) && digits_value(digits, radix) <= max {
        Some(digits_value(digits, radix))
    } else {
        None
    }
}

/// A number grows with each digit.
pub proof fn lemma_digits_grow(s: Seq<char>, radix: nat, n: int)
    requires
        0 <= n <= s.len(),
        radix >= 1,
    ensures
        digits_value(s.take(n), radix) <= digits_value(s, radix),
    decreases s.len() - n,
{
    if n < s.len() {
        lemma_digits_grow(s, radix, n + 1);
        let t = s.take(n + 1);
        assert(t.drop_last() == s.take(n));
        assert(digits_value(t, radix) >= digits_value(s.take(n), radix)) by (nonlinear_arith)
            requires
                digits_value(t, radix) == digits_value(s.take(n), radix) * radix
                    + digit_value(t.last())->0,
                radix >= 1,
        ;
    } else {
        assert(s.take(n) == s);
    }
}

pub fn digit_in(c: char, radix: u64) -> (digit: Option<u64>)
    requires
        radix <= 36,
    ensures
        match digit {
            Some(d) => is_digit_in(c, radix as nat) && Some(d as nat) == digit_value(c) && d < radix,
            None => !is_digit_in(c, radix as nat),
        },
{
    let d: u64 = if '0' <= c && c <= '9' {
        (c as u32 - '0' as u32) as u64
    } else if 'a' <= c && c <= 'z' {
        (c as u32 - 'a' as u32 + 10) as u64
    } else if 'A' <= c && c <= 'Z' {
        (c as u32 - 'A' as u32 + 10) as u64
    } else {
        return None;
    };
    if d < radix {
        Some(d)
    } else {
        None
    }
}

pub fn parse_unsigned(s: &[char], radix: u64, max: u64) -> (number: Option<u64>)
    requires
        2 <= radix <= 36,
    ensures
        match number {
            Some(n) => unsigned(s@, radix as nat, max as nat) == Some(n as nat),
            None => unsigned(s@, radix as nat, max as nat) is None,
        },
{
    let digits: &[char] = if s.len() > 0 && s[0] == '+' {
        assert(s@.skip(1) == s@.subrange(1, s@.len() as int));
        &s[1..s.len()]
    } else {
        s
    };
    if digits.len() == 0 {
        return None;
    }
    let mut value: u64 = 0;
    let mut i: usize = 0;
    while i < digits.len()
        invariant
            2 <= radix <= 36,
            digits@ == without_plus(s@),
            i <= digits@.len(),
            value == digits_value(digits@.take(i as int), radix as nat),
            value <= max,
            forall|k: int| 0 <= k < i ==> is_digit_in(#[trigger] digits@[k], radix as nat),
        decreases digits@.len() - i,
    {
        let d: u64 = match digit_in(digits[i], radix) {
            Some(d) => d,
            None => {
                return None;
            },
        };
        let ghost next = digits@.take(i + 1);
        assert(next.drop_last() == digits@.take(i as int));
        assert(digits_value(next, radix as nat) == value * radix + d);
        proof {
            lemma_digits_grow(digits@, radix as nat, i + 1);
        }
        assert(value * radix <= value * 36 && value * radix >= 0) by (nonlinear_arith)
            requires
                radix <= 36,
        ;
        let wide: u128 = (value as u128) * (radix as u128) + d as u128;
        if wide > max as u128 {
            return None;
        }
        value = wide as u64;
        i += 1;
    }
    assert(digits@.take(i as int) == digits@);
    Some(value)
}

/// The signed number that `s` writes in decimal, between `min` and `max`.
pub open spec fn signed(s: Seq<char>, min: int, max: nat) -> Option<int> {
    if s.len() > 0 && s[0] == '-' {
        let digits = s.skip(1);
        if all_digits(digits, 10) && -digits_value(digits, 10) >= min {
            Some(-digits_value(digits, 10))
        } else {
            None
        }
    } else {
        match unsigned(s, 10, max) {
            Some(n) => Some(n as int),
            None => None,
        }
    }
}

pub fn parse_signed(s: &[char]) -> (number: Option<i64>)
    ensures
        match number {
            Some(n) => signed(s@, i64::MIN as int, i64::MAX as nat) == Some(n as int),
            None => signed(s@, i64::MIN as int, i64::MAX as nat) is None,
        },
{
    if s.len() > 0 && s[0] == '-' {
        let digits = &s[1..s.len()];
        assert(digits@ == s@.skip(1));
        if digits.len() > 0 && digits[0] == '+' {
            assert(!is_digit_in(digits@[0], 10));
            return None;
        }
        match parse_unsigned(digits, 10, 0x8000_0000_0000_0000) {
            None => None,
            Some(n) => if n == 0x8000_0000_0000_0000 {
                Some(i64::MIN)
            } else {
                Some(-(n as i64))
            },
        }
    } else {
        match parse_unsigned(s, 10, 0x7fff_ffff_ffff_ffff) {
            None => None,
            Some(n) => Some(n as i64),
        }
    }
}

/// A smaller range takes the same numbers that lie in it.
pub proof fn lemma_signed_range(s: Seq<char>, min: int, max: nat)
    requires
        i64::MIN <= min <= 0,
        max <= i64::MAX,
    ensures
        signed(s, min, max) == match signed(s, i64::MIN as int, i64::MAX as nat) {
            Some(n) => if min <= n <= max {
                Some(n)
            } else {
                None
            },
            None => None,
        },
{
}

/// `s` without the `c` that it begins with.
pub open spec fn stripped_start(s: Seq<char>, c: char) -> Seq<char>
    decreases s.len(),
{
    if s.len() > 0 && s[0] == c {
        stripped_start(s.skip(1), c)
    } else {
        s
    }
}

/// `s` without the `c` that it ends with.
pub open spec fn stripped_end(s: Seq<char>, c: char) -> Seq<char>
    decreases s.len(),
{
    if s.len() > 0 && s.last() == c {
        stripped_end(s.drop_last(), c)
    } else {
        s
    }
}

/// `s` without the `c` that it begins and ends with.
pub open spec fn stripped(s: Seq<char>, c: char) -> Seq<char> {
    stripped_end(stripped_start(s, c), c)
}

pub fn strip_start(s: &[char], c: char) -> (rest: &[char])
    ensures
        rest@ == stripped_start(s@, c),
{
    let mut i: usize = 0;
    assert(s@.skip(0) == s@);
    while i < s.len() && s[i] == c
        invariant
            i <= s@.len(),
            stripped_start(s@, c) == stripped_start(s@.skip(i as int), c),
        decreases s@.len() - i,
    {
        assert(s@.skip(i as int).skip(1) == s@.skip(i + 1));
        i += 1;
    }
    assert(s@.skip(i as int) == s@.subrange(i as int, s@.len() as int));
    &s[i..s.len()]
}

pub fn strip_end(s: &[char], c: char) -> (rest: &[char])
    ensures
        rest@ == stripped_end(s@, c),
{
    let mut n: usize = s.len();
    assert(s@.take(n as int) == s@);
    while n > 0 && s[n - 1] == c
        invariant
            n <= s@.len(),
            stripped_end(s@, c) == stripped_end(s@.take(n as int), c),
        decreases n,
    {
        assert(s@.take(n as int).drop_last() == s@.take(n - 1));
        n -= 1;
    }
    &s[0..n]
}

pub fn strip(s: &[char], c: char) -> (rest: &[char])
    ensures
        rest@ == stripped(s@, c),
{
    strip_end(strip_start(s, c), c)
}

/// The decimal digits of a number, without leading zeros.
pub open spec fn decimal(n: nat) -> Seq<char>
    decreases n,
{
    if n < 10 {
        seq![(48 + n) as u8 as char]
    } else {
        decimal(n / 10).push((48 + n % 10) as u8 as char)
    }
}

/// The decimal digits of a number read back as the number.
pub proof fn lemma_decimal(n: nat)
    ensures
        all_digits(decimal(n), 10),
        digits_value(decimal(n), 10) == n,
        forall|i: int| 0 <= i < decimal(n).len() ==> is_ascii_digit(#[trigger] decimal(n)[i]),
    decreases n,
{
    if n < 10 {
        let s = decimal(n);
        assert(s.drop_last() =~= Seq::<char>::empty());
        assert(digits_value(s.drop_last(), 10) == 0);
    } else {
        lemma_decimal(n / 10);
        assert(decimal(n).drop_last() =~= decimal(n / 10));
    }
}

pub fn push_decimal(out: &mut Vec<char>, n: u64)
    ensures
        final(out)@ == old(out)@ + decimal(n as nat),
    decreases n,
{
    if n >= 10 {
        push_decimal(out, n / 10);
    }
    out.push((48 + n % 10) as u8 as char);
    assert(old(out)@ + decimal(n as nat) =~= out@);
}

/// The digit of a number below sixteen, with small letters.
pub open spec fn hex_digit(n: int) -> char {
    if n < 10 {
        (48 + n) as u8 as char
    } else {
        (87 + n) as u8 as char
    }
}

pub fn hex_char(n: u8) -> (c: char)
    requires
        n < 16,
    ensures
        c == hex_digit(n as int),
{
    if n < 10 {
        (48 + n) as char
    } else {
        (87 + n) as char
    }
}

/// The hexadecimal digits of a number, without leading zeros.
pub open spec fn hexadecimal(n: nat) -> Seq<char>
    decreases n,
{
    if n < 16 {
        seq![hex_digit(n as int)]
    } else {
        hexadecimal(n / 16).push(hex_digit((n % 16) as int))
    }
}

/// `s`, with zeros put before it up to the width.
pub open spec fn zero_padded(s: Seq<char>, width: nat) -> Seq<char> {
    if s.len() < width {
        Seq::new((width - s.len()) as nat, |i: int| '0') + s
    } else {
        s
    }
}

pub fn push_hexadecimal(out: &mut Vec<char>, n: u64)
    ensures
        final(out)@ == old(out)@ + hexadecimal(n as nat),
    decreases n,
{
    if n >= 16 {
        push_hexadecimal(out, n / 16);
    }
    out.push(hex_char((n % 16) as u8));
    assert(old(out)@ + hexadecimal(n as nat) =~= out@);
}

pub fn push_padded(out: &mut Vec<char>, digits: &[char], width: usize)
    ensures
        final(out)@ == old(out)@ + zero_padded(digits@, width as nat),
{
    let mut i: usize = digits.len();
    while i < width
        invariant
            digits@.len() <= i,
            i <= width || i == digits@.len(),
            out@ == old(out)@ + Seq::new((i - digits@.len()) as nat, |k: int| '0'),
        decreases width - i,
    {
        out.push('0');
        i += 1;
        assert(out@ =~= old(out)@ + Seq::new((i - digits@.len()) as nat, |k: int| '0'));
    }
    append_chars(out, digits);
    assert(out@ =~= old(out)@ + zero_padded(digits@, width as nat));
}

// ---------------------------------------------------------------------------
// Order
// ---------------------------------------------------------------------------

/// The order of texts: by the first character in which they differ, a text
/// before its own continuations.
pub open spec fn precedes(a: Seq<char>, b: Seq<char>) -> bool
    decreases a.len(),
{
    if b.len() == 0 {
        false
    } else if a.len() == 0 {
        true
    } else if a[0] != b[0] {
        a[0] < b[0]
    } else {
        precedes(a.skip(1), b.skip(1))
    }
}

/// `precedes` orders any two texts, and never a text before itself.
pub proof fn lemma_precedes_total(a: Seq<char>, b: Seq<char>)
    ensures
        precedes(a, b) || a == b || precedes(b, a),
        !(precedes(a, b) && precedes(b, a)),
        !precedes(a, a),
    decreases a.len(),
{
    if a.len() > 0 {
        assert(!precedes(a.skip(1), a.skip(1))) by {
            lemma_precedes_total(a.skip(1), a.skip(1));
        }
    }
    if a.len() > 0 && b.len() > 0 {
        lemma_precedes_total(a.skip(1), b.skip(1));
        if a[0] == b[0] && a.skip(1) == b.skip(1) {
            assert(a =~= seq![a[0]] + a.skip(1));
            assert(b =~= seq![b[0]] + b.skip(1));
        }
    } else if a.len() == 0 && b.len() == 0 {
        assert(a =~= b);
    }
}

/// `precedes` is transitive.
pub proof fn lemma_precedes_chain(a: Seq<char>, b: Seq<char>, c: Seq<char>)
    requires
        precedes(a, b),
        precedes(b, c),
    ensures
        precedes(a, c),
    decreases a.len(),
{
    if a.len() > 0 && a[0] == b[0] && b[0] == c[0] {
        lemma_precedes_chain(a.skip(1), b.skip(1), c.skip(1));
    }
}

pub fn comes_before(a: &[char], b: &[char]) -> (less: bool)
    ensures
        less == precedes(a@, b@),
{
    let mut i: usize = 0;
    assert(a@.skip(0) == a@ && b@.skip(0) == b@);
    while i < a.len() && i < b.len()
        invariant
            i <= a@.len(),
            i <= b@.len(),
            precedes(a@, b@) == precedes(a@.skip(i as int), b@.skip(i as int)),
        decreases a@.len() - i,
    {
        if a[i] != b[i] {
            return a[i] < b[i];
        }
        assert(a@.skip(i as int).skip(1) == a@.skip(i + 1));
        assert(b@.skip(i as int).skip(1) == b@.skip(i + 1));
        i += 1;
    }
    i < b.len()
}

// ---------------------------------------------------------------------------
// Laws
// ---------------------------------------------------------------------------

/// Letters are made small where they are ASCII capitals, and nothing else is
/// changed.
pub proof fn law_capitals_are_made_small(s: Seq<char>, i: int)
    requires
        0 <= i < s.len(),
    ensures
        lowered(s).len() == s.len(),
        65 <= s[i] as int <= 90 ==> lowered(s)[i] as int == s[i] as int + 32,
        !(65 <= s[i] as int <= 90) ==> lowered(s)[i] == s[i],
{
}

/// Blanks, tabs and line ends are white space; printable ASCII characters are
/// not.
pub proof fn law_white_space(c: char)
    ensures
        c as int == 32 || 9 <= c as int <= 13 ==> is_white(c),
        33 <= c as int <= 126 ==> !is_white(c),
        (c as int) < 32 || c as int == 127 ==> is_control(c),
        32 <= c as int <= 126 ==> !is_control(c),
{
}

/// A digit counts what it says: `0` to `9` count 0 to 9, and letters of either
/// size go on from 10.
pub proof fn law_digits_count(c: char)
    ensures
        48 <= c as int <= 57 ==> digit_value(c) == Some((c as int - 48) as nat),
        97 <= c as int <= 122 ==> digit_value(c) == Some((c as int - 87) as nat),
        65 <= c as int <= 90 ==> digit_value(c) == Some((c as int - 55) as nat),
        !(48 <= c as int <= 57 || 97 <= c as int <= 122 || 65 <= c as int <= 90) ==> digit_value(
            c,
        ) is None,
{
}

/// Every further digit of a number makes what stands before it count as many
/// times more as the radix says.
pub proof fn law_digits_count_by_their_place(s: Seq<char>, c: char, radix: nat)
    ensures
        digits_value(Seq::<char>::empty(), radix) == 0,
        digits_value(s.push(c), radix) == digits_value(s, radix) * radix + digit_value(c)->0,
{
    assert(s.push(c).drop_last() =~= s);
}

/// Numbers that are written in decimal or hexadecimal digits read back, and have
/// no zeros before them.
pub proof fn law_written_numbers_read_back(n: nat)
    ensures
        all_digits(decimal(n), 10),
        digits_value(decimal(n), 10) == n,
        n > 0 ==> decimal(n)[0] != '0',
        all_digits(hexadecimal(n), 16),
        digits_value(hexadecimal(n), 16) == n,
        n > 0 ==> hexadecimal(n)[0] != '0',
    decreases n,
{
    lemma_decimal(n);
    lemma_hexadecimal(n);
    lemma_no_zeros_before(n);
}

proof fn lemma_hexadecimal(n: nat)
    ensures
        all_digits(hexadecimal(n), 16),
        digits_value(hexadecimal(n), 16) == n,
    decreases n,
{
    let s = hexadecimal(n);
    if n < 16 {
        assert(s.drop_last() =~= Seq::<char>::empty());
        reveal_with_fuel(digits_value, 2);
    } else {
        lemma_hexadecimal(n / 16);
        assert(s.drop_last() =~= hexadecimal(n / 16));
        assert forall|i: int| 0 <= i < s.len() implies is_digit_in(#[trigger] s[i], 16) by {
            if i < s.len() - 1 {
                assert(s[i] == hexadecimal(n / 16)[i]);
            }
        }
    }
}

proof fn lemma_no_zeros_before(n: nat)
    ensures
        decimal(n).len() > 0,
        n > 0 ==> decimal(n)[0] != '0',
        hexadecimal(n).len() > 0,
        n > 0 ==> hexadecimal(n)[0] != '0',
    decreases n,
{
    if n >= 10 {
        lemma_no_zeros_before(n / 10);
    }
    if n >= 16 {
        lemma_no_zeros_before(n / 16);
    }
}

/// True when `part` is what stands in `s` from `from` on up to `to`, and only
/// white space stands around it.
pub open spec fn is_core(s: Seq<char>, part: Seq<char>, from: int, to: int) -> bool {
    &&& 0 <= from <= to <= s.len()
    &&& part == s.subrange(from, to)
    &&& forall|k: int| 0 <= k < from || to <= k < s.len() ==> is_white(#[trigger] s[k])
}

proof fn lemma_start_trimmed(s: Seq<char>) -> (from: int)
    ensures
        is_core(s, trimmed_start(s), from, s.len() as int),
        from < s.len() ==> !is_white(s[from]),
    decreases s.len(),
{
    if s.len() > 0 && is_white(s[0]) {
        let rest = s.skip(1);
        let at = lemma_start_trimmed(rest);
        assert(rest.subrange(at, rest.len() as int) =~= s.subrange(at + 1, s.len() as int));
        assert forall|k: int| 0 <= k < at + 1 implies is_white(#[trigger] s[k]) by {
            if k > 0 {
                assert(rest[k - 1] == s[k]);
            }
        }
        at + 1
    } else {
        assert(s.subrange(0, s.len() as int) =~= s);
        0
    }
}

proof fn lemma_end_trimmed(s: Seq<char>) -> (to: int)
    ensures
        is_core(s, trimmed_end(s), 0, to),
        to > 0 ==> !is_white(s[to - 1]),
    decreases s.len(),
{
    if s.len() > 0 && is_white(s.last()) {
        let rest = s.drop_last();
        let at = lemma_end_trimmed(rest);
        assert(rest.subrange(0, at) =~= s.subrange(0, at));
        assert forall|k: int| at <= k < s.len() implies is_white(#[trigger] s[k]) by {
            if k < s.len() - 1 {
                assert(rest[k] == s[k]);
            }
        }
        at
    } else {
        assert(s.subrange(0, s.len() as int) =~= s);
        s.len() as int
    }
}

/// Trimming takes the white space off both ends of a text, and nothing else.
pub proof fn law_trimming_takes_white_space_off(s: Seq<char>)
    ensures
        ({
            let t = trimmed(s);
            &&& exists|from: int, to: int| #[trigger] is_core(s, t, from, to)
            &&& t.len() > 0 ==> !is_white(t[0]) && !is_white(t.last())
        }),
{
    let from = lemma_start_trimmed(s);
    let rest = trimmed_start(s);
    let to = lemma_end_trimmed(rest);
    let t = trimmed(s);
    assert(rest.subrange(0, to) =~= s.subrange(from, from + to));
    assert forall|k: int| 0 <= k < from || from + to <= k < s.len() implies is_white(
        #[trigger] s[k],
    ) by {
        if k >= from + to {
            assert(rest[k - from] == s[k]);
        }
    }
    assert(is_core(s, t, from, from + to));
    if t.len() > 0 {
        assert(t[0] == s[from]);
        assert(t.last() == rest[to - 1]);
    }
}

/// Pieces with a character between them.
pub open spec fn with_between(parts: Seq<Seq<char>>, c: char) -> Seq<char>
    decreases parts.len(),
{
    if parts.len() == 0 {
        seq![]
    } else if parts.len() == 1 {
        parts[0]
    } else {
        parts[0].push(c) + with_between(parts.skip(1), c)
    }
}

/// The pieces of a text do not hold the character that parts them, and put
/// together with it between them they are the text.
pub proof fn law_pieces_make_the_text(s: Seq<char>, c: char)
    ensures
        split(s, c).len() > 0,
        with_between(split(s, c), c) == s,
        forall|i: int| 0 <= i < split(s, c).len() ==> !(#[trigger] split(s, c)[i]).contains(c),
    decreases s.len(),
{
    lemma_position(s, c, 0);
    let at = position(s, c, 0);
    let all = split(s, c);
    if at < s.len() {
        let rest = split(s.skip(at + 1), c);
        law_pieces_make_the_text(s.skip(at + 1), c);
        assert(all.skip(1) =~= rest);
        assert(s.take(at).push(c) + s.skip(at + 1) =~= s);
        assert forall|i: int| 0 <= i < all.len() implies !(#[trigger] all[i]).contains(c) by {
            if i > 0 {
                assert(all[i] == rest[i - 1]);
            }
        }
    }
}

/// Zeros before a number bring it to its width and do not change it; a longer one
/// stays as it is.
pub proof fn law_zeros_before_a_number(s: Seq<char>, width: nat)
    requires
        all_digits(s, 16),
    ensures
        s.len() >= width ==> zero_padded(s, width) == s,
        s.len() < width ==> zero_padded(s, width).len() == width,
        s.len() < width ==> zero_padded(s, width).skip(width - s.len()) == s,
        s.len() < width ==> forall|i: int|
            0 <= i < width - s.len() ==> #[trigger] zero_padded(s, width)[i] == '0',
        all_digits(zero_padded(s, width), 16),
        digits_value(zero_padded(s, width), 16) == digits_value(s, 16),
{
    if s.len() < width {
        let zeros = Seq::new((width - s.len()) as nat, |i: int| '0');
        let padded = zero_padded(s, width);
        assert(padded == zeros + s);
        assert(padded.skip(width - s.len()) =~= s);
        assert forall|i: int| 0 <= i < padded.len() implies is_digit_in(#[trigger] padded[i], 16) by {
            if i < width - s.len() {
                assert(padded[i] == '0');
            } else {
                assert(padded[i] == s[i - (width - s.len())]);
            }
        }
        lemma_zeros_before(zeros, s);
    }
}

proof fn lemma_zeros_before(zeros: Seq<char>, s: Seq<char>)
    requires
        forall|i: int| 0 <= i < zeros.len() ==> #[trigger] zeros[i] == '0',
    ensures
        digits_value(zeros + s, 16) == digits_value(s, 16),
    decreases s.len(), zeros.len(),
{
    if s.len() > 0 {
        assert((zeros + s).drop_last() =~= zeros + s.drop_last());
        lemma_zeros_before(zeros, s.drop_last());
    } else {
        assert(zeros + s =~= zeros);
        assert(s =~= Seq::<char>::empty());
        if zeros.len() > 0 {
            assert(zeros.drop_last() + s =~= zeros.drop_last());
            lemma_zeros_before(zeros.drop_last(), s);
            assert(zeros.last() == '0');
        }
    }
}

/// A text comes before another one where the first character in which they differ is
/// smaller, or where it is the start of the other one.
pub proof fn law_texts_are_ordered_by_characters(a: Seq<char>, b: Seq<char>, k: int)
    requires
        0 <= k <= a.len(),
        k <= b.len(),
        forall|i: int| 0 <= i < k ==> #[trigger] a[i] == b[i],
    ensures
        k < a.len() && k < b.len() && a[k] != b[k] ==> (precedes(a, b) <==> a[k] < b[k]),
        k == a.len() && k < b.len() ==> precedes(a, b),
        k == b.len() ==> !precedes(a, b),
    decreases k,
{
    if k > 0 {
        let c = a.skip(1);
        let d = b.skip(1);
        assert(a[0] == b[0]);
        assert forall|i: int| 0 <= i < k - 1 implies #[trigger] c[i] == d[i] by {
            assert(a[i + 1] == b[i + 1]);
        }
        law_texts_are_ordered_by_characters(c, d, k - 1);
    }
}

/// Stripping a character takes it off both ends, all of it and nothing else.
pub proof fn law_stripping_takes_characters_off(s: Seq<char>, c: char)
    ensures
        ({
            let rest = stripped_start(s, c);
            let n = s.len() - rest.len();
            &&& 0 <= n && rest == s.skip(n)
            &&& forall|i: int| 0 <= i < n ==> #[trigger] s[i] == c
            &&& rest.len() > 0 ==> rest[0] != c
        }),
        ({
            let rest = stripped_end(s, c);
            &&& rest.len() <= s.len() && rest == s.take(rest.len() as int)
            &&& forall|i: int| rest.len() <= i < s.len() ==> #[trigger] s[i] == c
            &&& rest.len() > 0 ==> rest.last() != c
        }),
        stripped(s, c) == stripped_end(stripped_start(s, c), c),
    decreases s.len(),
{
    if s.len() > 0 {
        if s[0] == c {
            let less = s.skip(1);
            law_stripping_takes_characters_off(less, c);
            let rest = stripped_start(s, c);
            let n = s.len() - rest.len();
            assert(rest =~= s.skip(n));
            assert forall|i: int| 0 <= i < n implies #[trigger] s[i] == c by {
                if i > 0 {
                    assert(less[i - 1] == s[i]);
                }
            }
        } else {
            assert(s.skip(0) =~= s);
        }
        if s.last() == c {
            let less = s.drop_last();
            law_stripping_takes_characters_off(less, c);
            let rest = stripped_end(s, c);
            assert(rest =~= s.take(rest.len() as int));
            assert forall|i: int| rest.len() <= i < s.len() implies #[trigger] s[i] == c by {
                if i < less.len() {
                    assert(less[i] == s[i]);
                }
            }
        } else {
            assert(s.take(s.len() as int) =~= s);
        }
    } else {
        assert(s.skip(0) =~= s);
        assert(s.take(0) =~= s);
    }
}

/// A word is what stands between white space: the words of a text are its first one,
/// up to the first white space behind it, and those of the rest.
pub proof fn law_words_stand_between_white_space(word: Seq<char>, c: char, rest: Seq<char>)
    requires
        word.len() > 0,
        forall|i: int| 0 <= i < word.len() ==> !is_white(#[trigger] word[i]),
        is_white(c),
    ensures
        words(seq![]).len() == 0,
        words(word) == seq![word],
        words(word + seq![c] + rest) == seq![word] + words(seq![c] + rest),
        words(seq![c] + rest) == words(rest),
{
    let all = word + seq![c] + rest;
    let n = word.len() as int;
    assert(!is_white(word[0]));
    assert(all[0] == word[0]);
    lemma_white_at(all, 0, n);
    assert(all.take(n) =~= word);
    assert(all.skip(n) =~= seq![c] + rest);
    lemma_no_white(word, 0);
    assert(word.take(n) =~= word);
    assert(word.skip(n) =~= Seq::<char>::empty());
    assert(words(Seq::<char>::empty()) =~= Seq::<Seq<char>>::empty());
    assert(words(word) =~= seq![word]);
    let spaced = seq![c] + rest;
    assert(spaced[0] == c && spaced.skip(1) =~= rest);
    assert(trimmed_start(spaced) == trimmed_start(rest));
}

proof fn lemma_white_at(s: Seq<char>, from: int, at: int)
    requires
        0 <= from <= at < s.len(),
        is_white(s[at]),
        forall|i: int| from <= i < at ==> !is_white(#[trigger] s[i]),
    ensures
        white_position(s, from) == at,
    decreases at - from,
{
    if from < at {
        lemma_white_at(s, from + 1, at);
    }
}

proof fn lemma_no_white(s: Seq<char>, from: int)
    requires
        0 <= from <= s.len(),
        forall|i: int| from <= i < s.len() ==> !is_white(#[trigger] s[i]),
    ensures
        white_position(s, from) == s.len(),
    decreases s.len() - from,
{
    if from < s.len() {
        lemma_no_white(s, from + 1);
    }
}

/// A text has the lines between its line feeds, each without a carriage return at its
/// end where a line feed ends it; what stands behind the last line feed is a line
/// where it is not empty.
pub proof fn law_line_feeds_end_lines(line: Seq<char>, rest: Seq<char>)
    requires
        forall|i: int| 0 <= i < line.len() ==> #[trigger] line[i] != '\n',
    ensures
        lines(seq![]).len() == 0,
        line.len() > 0 ==> lines(line) == seq![line],
        lines(line + seq!['\n'] + rest) == seq![without_return(line)] + lines(rest),
        without_return(line.push('\r')) == line,
        line.len() == 0 || line.last() != '\r' ==> without_return(line) == line,
{
    let none = Seq::<char>::empty();
    lemma_position(none, '\n', 0);
    assert(split(none, '\n') =~= seq![none]);
    assert(lines(none) =~= Seq::<Seq<char>>::empty());
    lemma_position(line, '\n', 0);
    assert(split(line, '\n') =~= seq![line]);
    if line.len() > 0 {
        assert(lines(line) =~= seq![line]);
    }
    let all = line + seq!['\n'] + rest;
    let n = line.len() as int;
    lemma_position(all, '\n', 0);
    assert(all[n] == '\n');
    let at = position(all, '\n', 0);
    if at < n {
        assert(all[at] == line[at]);
    }
    assert(at == n);
    assert(all.take(n) =~= line);
    assert(all.skip(n + 1) =~= rest);
    let others = split(rest, '\n');
    law_pieces_make_the_text(rest, '\n');
    let pieces = split(all, '\n');
    assert(pieces =~= seq![line] + others);
    let f = |l: Seq<char>| without_return(l);
    assert(pieces.last() == others.last());
    assert(pieces.drop_last().map_values(f) =~= seq![without_return(line)]
        + others.drop_last().map_values(f));
    assert(lines(all) =~= seq![without_return(line)] + lines(rest));
    assert(line.push('\r').drop_last() =~= line);
}

/// A text is parted at the first place of a character, which goes to neither half.
pub proof fn law_halves_stand_around_the_first(a: Seq<char>, c: char, b: Seq<char>)
    requires
        forall|i: int| 0 <= i < a.len() ==> #[trigger] a[i] != c,
    ensures
        halves(a + seq![c] + b, c) == Some((a, b)),
        halves(a, c) is None,
{
    let all = a + seq![c] + b;
    lemma_position(all, c, 0);
    lemma_position(a, c, 0);
    assert(all[a.len() as int] == c);
    let at = position(all, c, 0);
    if at < a.len() {
        assert(all[at] == a[at]);
    }
    assert(at == a.len());
    assert(all.take(at) =~= a);
    assert(all.skip(at + 1) =~= b);
}

} // verus!
