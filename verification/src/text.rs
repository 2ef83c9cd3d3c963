//! Text: how numbers and bytes are written out, and the few operations on strings that the
//! tracker needs.
use vstd::prelude::*;
use vstd::utf8::{decode_utf8, encode_utf8, encode_utf8_decode_utf8, valid_utf8};

verus! {

/// The character of a digit, in lower case.
pub open spec fn digit_char(digit: nat) -> char {
    if digit == 0 {
        '0'
    } else if digit == 1 {
        '1'
    } else if digit == 2 {
        '2'
    } else if digit == 3 {
        '3'
    } else if digit == 4 {
        '4'
    } else if digit == 5 {
        '5'
    } else if digit == 6 {
        '6'
    } else if digit == 7 {
        '7'
    } else if digit == 8 {
        '8'
    } else if digit == 9 {
        '9'
    } else if digit == 10 {
        'a'
    } else if digit == 11 {
        'b'
    } else if digit == 12 {
        'c'
    } else if digit == 13 {
        'd'
    } else if digit == 14 {
        'e'
    } else {
        'f'
    }
}

/// A number written in a base, without leading zeros.
pub open spec fn digits(number: nat, base: nat) -> Seq<char>
    decreases number,
{
    if base < 2 || number < base {
        seq![digit_char(number)]
    } else {
        proof {
            assert(number / base < number) by (nonlinear_arith)
                requires
                    number >= base,
                    base >= 2,
            ;
        }
        digits(number / base, base).push(digit_char(number % base))
    }
}

/// A number in decimal.
pub open spec fn decimal(number: int) -> Seq<char> {
    if number < 0 {
        seq!['-'] + digits((-number) as nat, 10)
    } else {
        digits(number as nat, 10)
    }
}

/// A text with zeros in front of it up to a width.
pub open spec fn zero_padded(text: Seq<char>, width: nat) -> Seq<char> {
    if text.len() >= width {
        text
    } else {
        Seq::new((width - text.len()) as nat, |i: int| '0') + text
    }
}

/// Bytes in hexadecimal, two digits each.
pub open spec fn hex(bytes: Seq<u8>) -> Seq<char>
    decreases bytes.len(),
{
    if bytes.len() == 0 {
        Seq::empty()
    } else {
        hex(bytes.drop_last()).push(digit_char((bytes.last() / 16) as nat)).push(
            digit_char((bytes.last() % 16) as nat),
        )
    }
}

/// What a lossy decoding of bytes reads: `String::from_utf8_lossy`.
pub uninterp spec fn lossy_text(bytes: Seq<u8>) -> Seq<char>;

/// Calls `String::from_utf8_lossy`. Its text depends on the bytes alone, and valid UTF-8
/// is read as it stands; how invalid bytes are replaced is left to the name.
#[verifier::external_body]
pub(crate) fn lossy(bytes: &[u8]) -> (text: String)
    ensures
        text@ == lossy_text(bytes@),
        valid_utf8(bytes@) ==> text@ == decode_utf8(bytes@),
{
    String::from_utf8_lossy(bytes).into_owned()
}

/// Calls `std::str::from_utf8`: the text whose UTF-8 encoding the bytes are, where they
/// are valid UTF-8.
#[verifier::external_body]
pub(crate) fn utf8_text(bytes: &[u8]) -> (text: Option<&str>)
    ensures
        text is Some == valid_utf8(bytes@),
        text is Some ==> text->0@ == decode_utf8(bytes@),
        text is Some ==> encode_utf8(text->0@) == bytes@,
{
    std::str::from_utf8(bytes).ok()
}

/// Two texts that have the same UTF-8 encoding are the same.
pub proof fn encoding_determines_text(a: Seq<char>, b: Seq<char>)
    requires
        encode_utf8(a) == encode_utf8(b),
    ensures
        a == b,
{
    encode_utf8_decode_utf8(a);
    encode_utf8_decode_utf8(b);
}

/// Whether two texts are the same.
pub fn same_text(a: &str, b: &str) -> (result: bool)
    ensures
        result == (a@ == b@),
{
    let result = crate::order::same_bytes(a.as_bytes(), b.as_bytes());
    proof {
        if result {
            encoding_determines_text(a@, b@);
        }
    }
    result
}

/// One text behind another.
pub fn concat2(a: &str, b: &str) -> (text: String)
    ensures
        text@ == a@ + b@,
{
    let mut text = a.to_owned();
    text.append(b);
    text
}

/// Three texts in a row.
pub fn concat3(a: &str, b: &str, c: &str) -> (text: String)
    ensures
        text@ == a@ + b@ + c@,
{
    let mut text = concat2(a, b);
    text.append(c);
    text
}

fn digit_text(digit: u64) -> (text: &'static str)
    requires
        digit < 16,
    ensures
        text@ == seq![digit_char(digit as nat)],
{
    proof {
        reveal_strlit("0");
        reveal_strlit("1");
        reveal_strlit("2");
        reveal_strlit("3");
        reveal_strlit("4");
        reveal_strlit("5");
        reveal_strlit("6");
        reveal_strlit("7");
        reveal_strlit("8");
        reveal_strlit("9");
        reveal_strlit("a");
        reveal_strlit("b");
        reveal_strlit("c");
        reveal_strlit("d");
        reveal_strlit("e");
        reveal_strlit("f");
    }
    let text: &'static str = match digit {
        0 => "0",
        1 => "1",
        2 => "2",
        3 => "3",
        4 => "4",
        5 => "5",
        6 => "6",
        7 => "7",
        8 => "8",
        9 => "9",
        10 => "a",
        11 => "b",
        12 => "c",
        13 => "d",
        14 => "e",
        _ => "f",
    };
    assert(text@ =~= seq![digit_char(digit as nat)]);
    text
}

/// A number written in a base.
pub fn digits_text(number: u64, base: u64) -> (text: String)
    requires
        2 <= base <= 16,
    ensures
        text@ == digits(number as nat, base as nat),
    decreases number,
{
    if number < base {
        digit_text(number).to_owned()
    } else {
        proof {
            assert(number / base < number) by (nonlinear_arith)
                requires
                    number >= base,
                    base >= 2,
            ;
        }
        let mut text = digits_text(number / base, base);
        let ghost head = text@;
        text.append(digit_text(number % base));
        assert(text@ =~= head.push(digit_char((number % base) as nat)));
        text
    }
}

/// A number in decimal.
pub fn decimal_text(number: u64) -> (text: String)
    ensures
        text@ == decimal(number as int),
{
    digits_text(number, 10)
}

/// A signed number in decimal.
pub fn signed_text(number: i32) -> (text: String)
    ensures
        text@ == decimal(number as int),
{
    if number < 0 {
        let size: u64 = (-(number as i64)) as u64;
        proof {
            reveal_strlit("-");
        }
        let rest = digits_text(size, 10);
        let text = concat2("-", rest.as_str());
        assert(text@ =~= seq!['-'] + rest@);
        text
    } else {
        digits_text(number as u64, 10)
    }
}

/// A number in octal, with zeros in front of it up to six digits.
pub fn octal6_text(number: u32) -> (text: String)
    ensures
        text@ == zero_padded(digits(number as nat, 8), 6),
{
    let mut text = digits_text(number as u64, 8);
    let ghost plain = text@;
    let mut width: usize = text.as_str().unicode_len();
    let mut added: usize = 0;
    proof {
        reveal_strlit("0");
    }
    assert(text@ =~= Seq::new(added as nat, |i: int| '0') + plain);
    while width < 6
        invariant
            text@ == Seq::new(added as nat, |i: int| '0') + plain,
            width == plain.len() + added,
            added > 0 ==> width <= 6,
            added <= 6,
            "0"@ == seq!['0'],
        decreases 6 - width,
    {
        let longer = concat2("0", text.as_str());
        assert(longer@ =~= Seq::new((added + 1) as nat, |i: int| '0') + plain);
        text = longer;
        width += 1;
        added += 1;
    }
    assert(text@ =~= zero_padded(plain, 6));
    text
}

/// Bytes in hexadecimal.
pub fn hex_text(bytes: &[u8]) -> (text: String)
    ensures
        text@ == hex(bytes@),
{
    let mut text = String::new();
    let mut i: usize = 0;
    assert(bytes@.take(0) =~= Seq::<u8>::empty());
    while i < bytes.len()
        invariant
            i <= bytes@.len(),
            text@ == hex(bytes@.take(i as int)),
        decreases bytes@.len() - i,
    {
        let byte: u8 = bytes[i];
        let ghost before = text@;
        proof {
            assert(bytes@.take(i + 1).drop_last() =~= bytes@.take(i as int));
            assert(bytes@.take(i + 1).last() == byte);
        }
        text.append(digit_text((byte / 16) as u64));
        text.append(digit_text((byte % 16) as u64));
        assert(text@ =~= before.push(digit_char((byte / 16) as nat)).push(
            digit_char((byte % 16) as nat),
        ));
        i += 1;
    }
    assert(bytes@.take(bytes@.len() as int) =~= bytes@);
    text
}

/// The characters of a text.
pub fn characters(text: &str) -> (list: Vec<char>)
    ensures
        list@ == text@,
{
    let mut list: Vec<char> = Vec::new();
    for c in iter: text.chars()
        invariant
            iter.seq() == text@,
            list@ == text@.take(iter.index() as int),
    {
        let ghost before = list@;
        list.push(c);
        assert(list@ =~= text@.take(before.len() as int + 1));
    }
    assert(list@ =~= text@);
    list
}

/// The position of the first character that equals `wanted`.
pub open spec fn first_index(text: Seq<char>, wanted: char) -> Option<int>
    decreases text.len(),
{
    if text.len() == 0 {
        None
    } else {
        match first_index(text.drop_last(), wanted) {
            Some(index) => Some(index),
            None => if text.last() == wanted {
                Some(text.len() - 1)
            } else {
                None
            },
        }
    }
}

/// The first index is where the character stands, with none before it.
pub proof fn first_index_is_first(text: Seq<char>, wanted: char)
    ensures
        match first_index(text, wanted) {
            Some(index) => 0 <= index < text.len() && text[index] == wanted && forall|i: int|
                0 <= i < index ==> #[trigger] text[i] != wanted,
            None => forall|i: int| 0 <= i < text.len() ==> #[trigger] text[i] != wanted,
        },
    decreases text.len(),
{
    if text.len() > 0 {
        let head = text.drop_last();
        first_index_is_first(head, wanted);
        match first_index(head, wanted) {
            Some(index) => {
                assert(head[index] == text[index]);
                assert forall|i: int| 0 <= i < index implies #[trigger] text[i] != wanted by {
                    assert(head[i] == text[i]);
                }
            },
            None => {
                assert forall|i: int| 0 <= i < text.len() - 1 implies #[trigger] text[i]
                    != wanted by {
                    assert(head[i] == text[i]);
                }
            },
        }
    }
}

/// The text before and behind the first `=`.
pub open spec fn split_at_equals(text: Seq<char>) -> Option<(Seq<char>, Seq<char>)> {
    match first_index(text, '=') {
        Some(index) => Some((text.subrange(0, index), text.subrange(index + 1, text.len() as int))),
        None => None,
    }
}

/// Splits a text at its first `=`.
pub fn split_equals(text: &str) -> (parts: Option<(&str, &str)>)
    ensures
        match parts {
            Some((before, behind)) => split_at_equals(text@) == Some((before@, behind@)),
            None => split_at_equals(text@) is None,
        },
{
    let list = characters(text);
    let length: usize = list.len();
    let mut i: usize = 0;
    assert(text@.take(0) =~= Seq::<char>::empty());
    while i < length
        invariant
            i <= length,
            list@ == text@,
            length == text@.len(),
            first_index(text@.take(i as int), '=') is None,
        decreases length - i,
    {
        assert(text@.take(i + 1).drop_last() =~= text@.take(i as int));
        if list[i] == '=' {
            proof {
                assert(first_index(text@.take(i + 1), '=') == Some(i as int));
                lemma_first_index_extends(text@, '=', i + 1);
            }
            return Some((text.substring_char(0, i), text.substring_char(i + 1, length)));
        }
        i += 1;
    }
    assert(text@.take(length as int) =~= text@);
    None
}

proof fn lemma_first_index_extends(text: Seq<char>, wanted: char, length: int)
    requires
        0 <= length <= text.len(),
        first_index(text.take(length), wanted) is Some,
    ensures
        first_index(text, wanted) == first_index(text.take(length), wanted),
    decreases text.len(),
{
    if length == text.len() {
        assert(text.take(length) =~= text);
    } else {
        assert(text.drop_last().take(length) =~= text.take(length));
        lemma_first_index_extends(text.drop_last(), wanted, length);
    }
}

/// The characters that Unicode calls white space.
pub open spec fn is_white_space(c: char) -> bool {
    let code = c as u32;
    ||| 0x9 <= code <= 0xd
    ||| code == 0x20
    ||| code == 0x85
    ||| code == 0xa0
    ||| code == 0x1680
    ||| 0x2000 <= code <= 0x200a
    ||| code == 0x2028
    ||| code == 0x2029
    ||| code == 0x202f
    ||| code == 0x205f
    ||| code == 0x3000
}

/// Whether Unicode calls a character white space.
pub fn white_space(c: char) -> (result: bool)
    ensures
        result == is_white_space(c),
{
    let code: u32 = c as u32;
    (0x9 <= code && code <= 0xd) || code == 0x20 || code == 0x85 || code == 0xa0 || code == 0x1680
        || (0x2000 <= code && code <= 0x200a) || code == 0x2028 || code == 0x2029 || code == 0x202f
        || code == 0x205f || code == 0x3000
}

/// The text without the white space that it starts with.
pub open spec fn trimmed_start(text: Seq<char>) -> Seq<char>
    decreases text.len(),
{
    if text.len() > 0 && is_white_space(text[0]) {
        trimmed_start(text.skip(1))
    } else {
        text
    }
}

/// The text without the white space that it ends with.
pub open spec fn trimmed_end(text: Seq<char>) -> Seq<char>
    decreases text.len(),
{
    if text.len() > 0 && is_white_space(text.last()) {
        trimmed_end(text.drop_last())
    } else {
        text
    }
}

/// The text without the white space around it.
pub open spec fn trimmed(text: Seq<char>) -> Seq<char> {
    trimmed_end(trimmed_start(text))
}

/// The text without the white space around it.
pub fn trim(text: &str) -> (result: &str)
    ensures
        result@ == trimmed(text@),
{
    let list = characters(text);
    let length: usize = list.len();
    let mut start: usize = 0;
    assert(text@.skip(0) =~= text@);
    while start < length && white_space(list[start])
        invariant
            start <= length,
            list@ == text@,
            length == text@.len(),
            trimmed_start(text@.skip(start as int)) == trimmed_start(text@),
        decreases length - start,
    {
        assert(text@.skip(start as int).skip(1) =~= text@.skip(start + 1));
        start += 1;
    }
    let mut end: usize = length;
    assert(trimmed_start(text@) == text@.skip(start as int));
    assert(text@.subrange(start as int, end as int) =~= text@.skip(start as int));
    while end > start && white_space(list[end - 1])
        invariant
            start <= end <= length,
            list@ == text@,
            length == text@.len(),
            trimmed_end(text@.subrange(start as int, end as int)) == trimmed(text@),
        decreases end,
    {
        assert(text@.subrange(start as int, end as int).drop_last() =~= text@.subrange(
            start as int,
            end - 1,
        ));
        end -= 1;
    }
    text.substring_char(start, end)
}

/// The value of a decimal digit.
pub open spec fn digit_of(c: char) -> Option<nat> {
    if '0' <= c && c <= '9' {
        Some((c as u32 - '0' as u32) as nat)
    } else {
        None
    }
}

/// The number that a text of decimal digits stands for. There must be at least one.
pub open spec fn number_in(text: Seq<char>) -> Option<nat>
    decreases text.len(),
{
    if text.len() == 0 {
        None
    } else if text.len() == 1 {
        digit_of(text[0])
    } else {
        match (number_in(text.drop_last()), digit_of(text.last())) {
            (Some(number), Some(digit)) => Some(number * 10 + digit),
            _ => None,
        }
    }
}

/// The number that a text of an optional `+` and decimal digits stands for.
pub open spec fn unsigned_value(text: Seq<char>) -> Option<int> {
    let rest = if text.len() > 0 && text[0] == '+' {
        text.skip(1)
    } else {
        text
    };
    match number_in(rest) {
        Some(number) => Some(number as int),
        None => None,
    }
}

/// The number that a text of an optional sign and decimal digits stands for.
pub open spec fn signed_value(text: Seq<char>) -> Option<int> {
    if text.len() > 0 && text[0] == '-' {
        match number_in(text.skip(1)) {
            Some(number) => Some(-(number as int)),
            None => None,
        }
    } else {
        unsigned_value(text)
    }
}

/// There is a number, and it lies between the bounds.
pub open spec fn fits(value: Option<int>, low: int, high: int) -> bool {
    match value {
        Some(number) => low <= number && number <= high,
        None => false,
    }
}

/// The words of the error that `str::parse` gives for a text that is no `u64`.
pub uninterp spec fn u64_fault(text: Seq<char>) -> Seq<char>;

/// The words of the error that `str::parse` gives for a text that is no `usize`.
pub uninterp spec fn usize_fault(text: Seq<char>) -> Seq<char>;

/// The words of the error that `str::parse` gives for a text that is no `i32`.
pub uninterp spec fn i32_fault(text: Seq<char>) -> Seq<char>;

/// Calls `str::parse` for a `u64`: the number of an optional `+` and decimal digits, where it
/// fits. What the words of the error are is left to the name.
#[verifier::external_body]
pub(crate) fn parse_u64(text: &str) -> (result: Result<u64, String>)
    ensures
        result is Ok == fits(unsigned_value(text@), 0, u64::MAX as int),
        result is Ok ==> result->Ok_0 == unsigned_value(text@)->0,
        result is Err ==> result->Err_0@ == u64_fault(text@),
{
    text.parse::<u64>().map_err(|error| error.to_string())
}

/// Calls `str::parse` for a `usize`: the number of an optional `+` and decimal digits, where
/// it fits. What the words of the error are is left to the name.
#[verifier::external_body]
pub(crate) fn parse_usize(text: &str) -> (result: Result<usize, String>)
    ensures
        result is Ok == fits(unsigned_value(text@), 0, usize::MAX as int),
        result is Ok ==> result->Ok_0 == unsigned_value(text@)->0,
        result is Err ==> result->Err_0@ == usize_fault(text@),
{
    text.parse::<usize>().map_err(|error| error.to_string())
}

/// Calls `str::parse` for an `i32`: the number of an optional sign and decimal digits, where
/// it fits. What the words of the error are is left to the name.
#[verifier::external_body]
pub(crate) fn parse_i32(text: &str) -> (result: Result<i32, String>)
    ensures
        result is Ok == fits(signed_value(text@), i32::MIN as int, i32::MAX as int),
        result is Ok ==> result->Ok_0 == signed_value(text@)->0,
        result is Err ==> result->Err_0@ == i32_fault(text@),
{
    text.parse::<i32>().map_err(|error| error.to_string())
}

/// The text is what stands between two pieces of white space.
pub open spec fn surrounds(text: Seq<char>, front: Seq<char>, middle: Seq<char>, back: Seq<char>) -> bool {
    &&& text == front + middle + back
    &&& forall|i: int| 0 <= i < front.len() ==> is_white_space(#[trigger] front[i])
    &&& forall|i: int| 0 <= i < back.len() ==> is_white_space(#[trigger] back[i])
}

/// Trimming takes the white space at both ends off, all of it and nothing else.
pub proof fn trimming_takes_the_white_space_off(text: Seq<char>)
    ensures
        exists|front: Seq<char>, back: Seq<char>| #[trigger]
            surrounds(text, front, trimmed(text), back),
        trimmed(text).len() > 0 ==> !is_white_space(trimmed(text)[0]) && !is_white_space(
            trimmed(text).last(),
        ),
{
    let start = trimmed_start(text);
    let front = lemma_trimmed_start(text);
    let back = lemma_trimmed_end(start);
    assert(text =~= front + trimmed(text) + back);
    assert(surrounds(text, front, trimmed(text), back));
    if trimmed(text).len() > 0 {
        assert(start[0] == trimmed(text)[0]);
    }
}

proof fn lemma_trimmed_start(text: Seq<char>) -> (front: Seq<char>)
    ensures
        text == front + trimmed_start(text),
        forall|i: int| 0 <= i < front.len() ==> is_white_space(#[trigger] front[i]),
        trimmed_start(text).len() > 0 ==> !is_white_space(trimmed_start(text)[0]),
    decreases text.len(),
{
    if text.len() > 0 && is_white_space(text[0]) {
        let rest = lemma_trimmed_start(text.skip(1));
        let front = seq![text[0]] + rest;
        assert(text =~= seq![text[0]] + text.skip(1));
        assert(text =~= front + trimmed_start(text));
        front
    } else {
        assert(text =~= Seq::<char>::empty() + text);
        Seq::empty()
    }
}

proof fn lemma_trimmed_end(text: Seq<char>) -> (back: Seq<char>)
    ensures
        text == trimmed_end(text) + back,
        forall|i: int| 0 <= i < back.len() ==> is_white_space(#[trigger] back[i]),
        trimmed_end(text).len() > 0 ==> !is_white_space(trimmed_end(text).last()),
    decreases text.len(),
{
    if text.len() > 0 && is_white_space(text.last()) {
        let rest = lemma_trimmed_end(text.drop_last());
        let back = rest.push(text.last());
        assert(text =~= text.drop_last().push(text.last()));
        assert(text =~= trimmed_end(text) + back);
        back
    } else {
        assert(text =~= text + Seq::<char>::empty());
        Seq::empty()
    }
}

/// White space is what Unicode calls so.
pub proof fn white_space_is_that_of_unicode(c: char, result: bool)
    requires
        call_ensures(white_space, (c,), result),
    ensures
        result <==> seq![
            0x9u32,
            0xa,
            0xb,
            0xc,
            0xd,
            0x20,
            0x85,
            0xa0,
            0x1680,
            0x2000,
            0x2001,
            0x2002,
            0x2003,
            0x2004,
            0x2005,
            0x2006,
            0x2007,
            0x2008,
            0x2009,
            0x200a,
            0x2028,
            0x2029,
            0x202f,
            0x205f,
            0x3000,
        ].contains(c as u32),
{
    let list = seq![
        0x9u32,
        0xa,
        0xb,
        0xc,
        0xd,
        0x20,
        0x85,
        0xa0,
        0x1680,
        0x2000,
        0x2001,
        0x2002,
        0x2003,
        0x2004,
        0x2005,
        0x2006,
        0x2007,
        0x2008,
        0x2009,
        0x200a,
        0x2028,
        0x2029,
        0x202f,
        0x205f,
        0x3000,
    ];
    let code = c as u32;
    assert forall|k: int| 0 <= k < 25 implies is_blank_code(#[trigger] list[k]) by {}
    assert(list[0] == 0x9 && list[1] == 0xa && list[2] == 0xb && list[3] == 0xc && list[4] == 0xd
        && list[5] == 0x20 && list[6] == 0x85 && list[7] == 0xa0 && list[8] == 0x1680 && list[9]
        == 0x2000 && list[10] == 0x2001 && list[11] == 0x2002 && list[12] == 0x2003 && list[13]
        == 0x2004 && list[14] == 0x2005 && list[15] == 0x2006 && list[16] == 0x2007 && list[17]
        == 0x2008 && list[18] == 0x2009 && list[19] == 0x200a && list[20] == 0x2028 && list[21]
        == 0x2029 && list[22] == 0x202f && list[23] == 0x205f && list[24] == 0x3000);
}

spec fn is_blank_code(code: u32) -> bool {
    ||| 0x9 <= code <= 0xd
    ||| code == 0x20
    ||| code == 0x85
    ||| code == 0xa0
    ||| code == 0x1680
    ||| 0x2000 <= code <= 0x200a
    ||| code == 0x2028
    ||| code == 0x2029
    ||| code == 0x202f
    ||| code == 0x205f
    ||| code == 0x3000
}

/// A number in decimal reads back as the number, and has no zero in front unless it is zero.
pub proof fn decimal_numbers_read_back(number: nat)
    ensures
        number_in(decimal(number as int)) == Some(number),
        unsigned_value(decimal(number as int)) == Some(number as int),
        signed_value(decimal(number as int)) == Some(number as int),
        number > 0 ==> signed_value(decimal(-(number as int))) == Some(-(number as int)),
        number > 0 ==> decimal(number as int)[0] != '0',
        forall|i: int|
            0 <= i < decimal(number as int).len() ==> '0' <= #[trigger] decimal(number as int)[i]
                && decimal(number as int)[i] <= '9',
{
    lemma_decimal_digits(number);
    let text = digits(number, 10);
    if number > 0 {
        let negative = decimal(-(number as int));
        assert(negative[0] == '-');
        assert(negative.skip(1) =~= text);
    }
}

proof fn lemma_decimal_digits(number: nat)
    ensures
        digits(number, 10).len() > 0,
        number_in(digits(number, 10)) == Some(number),
        number > 0 ==> digits(number, 10)[0] != '0',
        forall|i: int|
            0 <= i < digits(number, 10).len() ==> '0' <= #[trigger] digits(number, 10)[i]
                && digits(number, 10)[i] <= '9',
    decreases number,
{
    let text = digits(number, 10);
    if number < 10 {
        assert(text =~= seq![digit_char(number)]);
        assert(digit_of(digit_char(number)) == Some(number));
    } else {
        let head = digits(number / 10, 10);
        lemma_decimal_digits(number / 10);
        assert(text =~= head.push(digit_char(number % 10)));
        assert(text.drop_last() =~= head);
        assert(digit_of(digit_char(number % 10)) == Some(number % 10));
        assert forall|i: int| 0 <= i < text.len() implies '0' <= #[trigger] text[i] && text[i]
            <= '9' by {
            if i < head.len() {
                assert(text[i] == head[i]);
            }
        }
    }
}

/// A number in a base ends with its last digit, behind the rest of it.
pub proof fn a_number_ends_with_its_last_digit(number: nat, base: nat)
    requires
        2 <= base <= 16,
    ensures
        number < base ==> digits(number, base) == seq![digit_char(number)],
        number >= base ==> digits(number, base) == digits(number / base, base) + seq![
            digit_char(number % base),
        ],
        digit_char(0) == '0' && digit_char(1) == '1' && digit_char(2) == '2' && digit_char(3) == '3'
            && digit_char(4) == '4' && digit_char(5) == '5' && digit_char(6) == '6' && digit_char(7)
            == '7' && digit_char(8) == '8' && digit_char(9) == '9' && digit_char(10) == 'a'
            && digit_char(11) == 'b' && digit_char(12) == 'c' && digit_char(13) == 'd'
            && digit_char(14) == 'e' && digit_char(15) == 'f',
{
    if number >= base {
        assert(digits(number, base) =~= digits(number / base, base) + seq![
            digit_char(number % base),
        ]);
    }
}

/// Bytes in hexadecimal are two digits for each byte, the higher one first.
pub proof fn hexadecimal_bytes_have_two_digits(bytes: Seq<u8>)
    ensures
        hex(bytes).len() == 2 * bytes.len(),
        forall|i: int|
            0 <= i < bytes.len() ==> hex(bytes)[2 * i] == digit_char((#[trigger] bytes[i] / 16) as nat)
                && hex(bytes)[2 * i + 1] == digit_char((bytes[i] % 16) as nat),
    decreases bytes.len(),
{
    if bytes.len() > 0 {
        let head = bytes.drop_last();
        hexadecimal_bytes_have_two_digits(head);
        assert forall|i: int| 0 <= i < bytes.len() implies hex(bytes)[2 * i] == digit_char(
            (#[trigger] bytes[i] / 16) as nat,
        ) && hex(bytes)[2 * i + 1] == digit_char((bytes[i] % 16) as nat) by {
            if i < head.len() {
                assert(head[i] == bytes[i]);
                assert(hex(bytes)[2 * i] == hex(head)[2 * i]);
                assert(hex(bytes)[2 * i + 1] == hex(head)[2 * i + 1]);
            }
        }
    }
}

/// A text is filled up with zeros in front to the width, and is kept otherwise.
pub proof fn zeros_fill_the_front(text: Seq<char>, width: nat)
    ensures
        zero_padded(text, width).len() == if text.len() >= width {
            text.len()
        } else {
            width
        },
        zero_padded(text, width).skip(zero_padded(text, width).len() - text.len()) == text,
        forall|i: int|
            0 <= i < zero_padded(text, width).len() - text.len() ==> #[trigger] zero_padded(
                text,
                width,
            )[i] == '0',
{
    let padded = zero_padded(text, width);
    assert(padded.skip(padded.len() - text.len()) =~= text);
}

/// A text is split at its first equals sign.
pub proof fn a_text_is_split_at_the_first_equals(id: Seq<char>, path: Seq<char>)
    requires
        !id.contains('='),
    ensures
        split_at_equals(id + seq!['='] + path) == Some((id, path)),
        split_at_equals(id) is None,
{
    let text = id + seq!['='] + path;
    first_index_is_first(text, '=');
    first_index_is_first(id, '=');
    assert(text[id.len() as int] == '=');
    assert forall|i: int| 0 <= i < id.len() implies #[trigger] text[i] != '=' by {
        assert(text[i] == id[i]);
        assert(id.contains(id[i]));
    }
    match first_index(text, '=') {
        Some(index) => {
            assert(index == id.len());
            assert(text.subrange(0, index) =~= id);
            assert(text.subrange(index + 1, text.len() as int) =~= path);
        },
        None => {},
    }
    match first_index(id, '=') {
        Some(index) => {
            assert(id.contains(id[index]));
        },
        None => {},
    }
}

} // verus!
