//! Numbers as text, percent encoding and trimming.
use vstd::prelude::*;
use vstd::utf8::{encode_utf8, valid_utf8};

use crate::text::{chars_of, text_of};

verus! {

/// The digit for a number below 16.
pub open spec fn digit(n: int) -> char {
    if n == 0 {
        '0'
    } else if n == 1 {
        '1'
    } else if n == 2 {
        '2'
    } else if n == 3 {
        '3'
    } else if n == 4 {
        '4'
    } else if n == 5 {
        '5'
    } else if n == 6 {
        '6'
    } else if n == 7 {
        '7'
    } else if n == 8 {
        '8'
    } else if n == 9 {
        '9'
    } else if n == 10 {
        'a'
    } else if n == 11 {
        'b'
    } else if n == 12 {
        'c'
    } else if n == 13 {
        'd'
    } else if n == 14 {
        'e'
    } else {
        'f'
    }
}

/// A number in some base, without leading zeroes.
pub open spec fn digits(n: nat, base: nat) -> Seq<char>
    decreases n,
    when base > 1
{
    if n < base {
        seq![digit(n as int)]
    } else {
        proof {
            assert(n / base < n) by (nonlinear_arith)
                requires
                    1 < base <= n,
            ;
        }
        digits(n / base, base).push(digit((n % base) as int))
    }
}

/// A decimal number.
pub open spec fn decimal(n: nat) -> Seq<char> {
    digits(n, 10)
}

/// A hexadecimal number with prefix. Negative numbers are written as 64 bit numbers
/// in two's complement.
pub open spec fn prefixed_hex(n: int) -> Seq<char> {
    "0x"@ + digits(
        if n < 0 {
            (n + 0x1_0000_0000_0000_0000) as nat
        } else {
            n as nat
        },
        16,
    )
}

fn digit_char(n: u64) -> (c: char)
    requires
        n < 16,
    ensures
        c == digit(n as int),
{
    match n {
        0 => '0',
        1 => '1',
        2 => '2',
        3 => '3',
        4 => '4',
        5 => '5',
        6 => '6',
        7 => '7',
        8 => '8',
        9 => '9',
        10 => 'a',
        11 => 'b',
        12 => 'c',
        13 => 'd',
        14 => 'e',
        _ => 'f',
    }
}

fn append_digits(text: &mut String, n: u64, base: u64)
    requires
        1 < base <= 16,
    ensures
        final(text)@ == old(text)@ + digits(n as nat, base as nat),
    decreases n,
{
    if n < base {
        text.push(digit_char(n));
        assert(text@ == old(text)@ + seq![digit(n as int)]);
    } else {
        proof {
            assert(n / base < n) by (nonlinear_arith)
                requires
                    1 < base <= n,
            ;
        }
        append_digits(text, n / base, base);
        let ghost before = text@;
        text.push(digit_char(n % base));
        assert(text@ == old(text)@ + digits((n / base) as nat, base as nat).push(
            digit((n % base) as int),
        ));
    }
}

/// Appends a decimal number to a text.
pub fn append_decimal(text: &mut String, n: u64)
    ensures
        final(text)@ == old(text)@ + decimal(n as nat),
{
    append_digits(text, n, 10);
}

/// Appends a hexadecimal number to a text, see [`prefixed_hex`].
pub fn append_hex(text: &mut String, n: i64)
    ensures
        final(text)@ == old(text)@ + prefixed_hex(n as int),
{
    let bits: u64 = if n < 0 {
        (n as i128 + 0x1_0000_0000_0000_0000) as u64
    } else {
        n as u64
    };
    text.append("0x");
    append_digits(text, bits, 16);
    assert(text@ == old(text)@ + ("0x"@ + digits(bits as nat, 16)));
}

/// Letters, digits and a few other characters are not encoded.
pub open spec fn is_unreserved(b: u8) -> bool {
    0x30 <= b <= 0x39 || 0x41 <= b <= 0x5a || 0x61 <= b <= 0x7a || b == 0x2d || b == 0x2e || b
        == 0x5f || b == 0x7e
}

/// The upper case digit for a number below 16.
pub open spec fn upper_digit(n: int) -> char {
    if n == 10 {
        'A'
    } else if n == 11 {
        'B'
    } else if n == 12 {
        'C'
    } else if n == 13 {
        'D'
    } else if n == 14 {
        'E'
    } else if n == 15 {
        'F'
    } else {
        digit(n)
    }
}

/// Each byte as the character it stands for, or as a percent sign and two digits.
pub open spec fn percent_encoded(bytes: Seq<u8>) -> Seq<char>
    decreases bytes.len(),
{
    if bytes.len() == 0 {
        seq![]
    } else {
        percent_encoded(bytes.drop_last()) + if is_unreserved(bytes.last()) {
            seq![bytes.last() as char]
        } else {
            seq!['%', upper_digit(bytes.last() as int / 16), upper_digit(bytes.last() as int % 16)]
        }
    }
}

/// Calls `urlencoding::encode`, which keeps the bytes of letters, digits, `-`, `.`,
/// `_` and `~` and writes every other byte of the UTF-8 text as a percent sign and
/// two upper case hexadecimal digits.
#[verifier::external_body]
pub(crate) fn url_encode(text: &str) -> (encoded: String)
    ensures
        encoded@ == percent_encoded(encode_utf8(text@)),
{
    urlencoding::encode(text).into_owned()
}

/// The number that a hexadecimal digit stands for.
pub open spec fn hex_value(b: u8) -> Option<int> {
    if 0x30 <= b <= 0x39 {
        Some(b - 0x30)
    } else if 0x41 <= b <= 0x46 {
        Some(b - 0x41 + 10)
    } else if 0x61 <= b <= 0x66 {
        Some(b - 0x61 + 10)
    } else {
        None
    }
}

/// The bytes with each percent sign that two hexadecimal digits follow replaced by
/// the byte that these stand for.
pub open spec fn percent_decoded(bytes: Seq<u8>) -> Seq<u8>
    decreases bytes.len(),
{
    if bytes.len() == 0 {
        seq![]
    } else if bytes[0] == 0x25 && bytes.len() >= 3 && hex_value(bytes[1]) is Some && hex_value(
        bytes[2],
    ) is Some {
        seq![(16 * hex_value(bytes[1])->0 + hex_value(bytes[2])->0) as u8] + percent_decoded(
            bytes.skip(3),
        )
    } else {
        seq![bytes[0]] + percent_decoded(bytes.skip(1))
    }
}

/// Calls `urlencoding::decode`, which replaces each percent sign that two
/// hexadecimal digits follow by a byte and keeps all other bytes. It fails exactly
/// if the bytes are not UTF-8 then.
#[verifier::external_body]
pub(crate) fn url_decode(text: &str) -> (decoded: Option<String>)
    ensures
        decoded is Some <==> valid_utf8(percent_decoded(encode_utf8(text@))),
        decoded matches Some(d) ==> encode_utf8(d@) == percent_decoded(encode_utf8(text@)),
{
    match urlencoding::decode(text) {
        Ok(decoded) => Some(decoded.into_owned()),
        Err(_) => None,
    }
}

proof fn lemma_encoded_front(b: u8, rest: Seq<u8>)
    ensures
        percent_encoded(seq![b] + rest) == percent_encoded(seq![b]) + percent_encoded(rest),
    decreases rest.len(),
{
    if rest.len() == 0 {
        assert(seq![b] + rest == seq![b]);
    } else {
        lemma_encoded_front(b, rest.drop_last());
        assert((seq![b] + rest).drop_last() == seq![b] + rest.drop_last());
    }
}

/// An encoded text is decoded to the bytes that it was made from.
pub proof fn law_encoded_bytes_can_be_decoded(bytes: Seq<u8>)
    ensures
        percent_decoded(encode_utf8(percent_encoded(bytes))) == bytes,
    decreases bytes.len(),
{
    reveal_with_fuel(percent_encoded, 2);
    if bytes.len() == 0 {
        assert(percent_encoded(bytes) == Seq::<char>::empty());
        assert(encode_utf8(Seq::<char>::empty()) == Seq::<u8>::empty());
    } else {
        let b = bytes[0];
        let rest = bytes.skip(1);
        law_encoded_bytes_can_be_decoded(rest);
        assert(bytes == seq![b] + rest);
        lemma_encoded_front(b, rest);
        let first = percent_encoded(seq![b]);
        assert(seq![b].drop_last() == Seq::<u8>::empty());
        let piece = if is_unreserved(b) {
            seq![b as char]
        } else {
            seq!['%', upper_digit(b as int / 16), upper_digit(b as int % 16)]
        };
        assert(first == piece);
        crate::text::lemma_encode_concat(first, percent_encoded(rest));
        vstd::utf8::is_ascii_chars_encode_utf8(first);
        let all = encode_utf8(percent_encoded(bytes));
        let head = encode_utf8(first);
        let tail = encode_utf8(percent_encoded(rest));
        assert(all == head + tail);
        if is_unreserved(b) {
            assert(head == seq![b]);
            assert(all.skip(1) == tail);
            assert(all[0] == b);
        } else {
            assert(head.len() == 3);
            assert(head[0] == 0x25);
            assert(hex_value(head[1]) == Some(b as int / 16));
            assert(hex_value(head[2]) == Some(b as int % 16));
            assert(all[0] == head[0] && all[1] == head[1] && all[2] == head[2]);
            assert(all.skip(3) == tail);
        }
    }
}

/// Without the given character at the start.
pub open spec fn trim_start(text: Seq<char>, c: char) -> Seq<char>
    decreases text.len(),
{
    if text.len() > 0 && text[0] == c {
        trim_start(text.drop_first(), c)
    } else {
        text
    }
}

/// Without the given character at the end.
pub open spec fn trim_end(text: Seq<char>, c: char) -> Seq<char>
    decreases text.len(),
{
    if text.len() > 0 && text.last() == c {
        trim_end(text.drop_last(), c)
    } else {
        text
    }
}

/// Without the given character at the start and at the end.
pub open spec fn trimmed(text: Seq<char>, c: char) -> Seq<char> {
    trim_end(trim_start(text, c), c)
}

/// Removes the given character from the start and the end of a text.
pub fn trim_matches(text: &str, c: char) -> (result: String)
    ensures
        result@ == trimmed(text@, c),
{
    let chars = chars_of(text);
    let mut start: usize = 0;
    assert(chars@.skip(0) == chars@);
    while start < chars.len() && chars[start] == c
        invariant
            start <= chars@.len(),
            trim_start(chars@, c) == trim_start(chars@.skip(start as int), c),
        decreases chars@.len() - start,
    {
        assert(chars@.skip(start as int).drop_first() == chars@.skip(start + 1));
        start = start + 1;
    }
    let ghost rest = chars@.skip(start as int);
    assert(trim_start(chars@, c) == rest);
    let mut end: usize = chars.len();
    assert(chars@.subrange(start as int, end as int) == rest);
    while end > start && chars[end - 1] == c
        invariant
            start <= end <= chars@.len(),
            trim_end(rest, c) == trim_end(chars@.subrange(start as int, end as int), c),
        decreases end,
    {
        let ghost part = chars@.subrange(start as int, end as int);
        assert(part.last() == chars@[end - 1]);
        assert(part.drop_last() == chars@.subrange(start as int, end - 1));
        end = end - 1;
    }
    proof {
        let part = chars@.subrange(start as int, end as int);
        if part.len() > 0 {
            assert(part.last() == chars@[end - 1]);
        }
    }
    text_of(chars.as_slice(), start, end)
}

/// With all occurrences of one character replaced by another.
pub open spec fn replaced(text: Seq<char>, from: char, to: char) -> Seq<char> {
    text.map_values(
        |c: char|
            if c == from {
                to
            } else {
                c
            },
    )
}

/// Replaces all occurrences of a character by another.
pub fn replace_char(text: &str, from: char, to: char) -> (result: String)
    ensures
        result@ == replaced(text@, from, to),
{
    let chars = chars_of(text);
    let mut result = String::new();
    let mut i: usize = 0;
    while i < chars.len()
        invariant
            i <= chars@.len(),
            chars@ == text@,
            result@ == replaced(text@.take(i as int), from, to),
        decreases chars@.len() - i,
    {
        let c = chars[i];
        result.push(
            if c == from {
                to
            } else {
                c
            },
        );
        assert(result@ == replaced(text@.take(i + 1), from, to));
        i = i + 1;
    }
    assert(text@.take(i as int) == text@);
    result
}

/// The number that a digit stands for, by its place among the digits and then the letters.
pub open spec fn digit_value(c: char) -> int {
    if '0' <= c <= '9' {
        c as int - '0' as int
    } else {
        c as int - 'a' as int + 10
    }
}

/// The number that some digits stand for.
pub open spec fn digits_value(text: Seq<char>, base: int) -> int
    decreases text.len(),
{
    if text.len() == 0 {
        0
    } else {
        digits_value(text.drop_last(), base) * base + digit_value(text.last())
    }
}

/// Whether all characters are digits of a base.
pub open spec fn are_digits(text: Seq<char>, base: int) -> bool {
    forall|i: int|
        0 <= i < text.len() ==> {
            let c = #[trigger] text[i];
            ('0' <= c <= '9' || 'a' <= c <= 'f') && 0 <= digit_value(c) < base
        }
}

/// A number is written with digits that stand for it, and without a zero in front of other
/// digits.
pub proof fn law_digits_stand_for_the_number(n: nat, base: nat)
    requires
        1 < base <= 16,
    ensures
        digits(n, base).len() > 0,
        are_digits(digits(n, base), base as int),
        digits_value(digits(n, base), base as int) == n,
        n > 0 ==> digits(n, base)[0] != '0',
    decreases n,
{
    reveal_with_fuel(digits_value, 2);
    let text = digits(n, base);
    if n < base {
        assert(text.drop_last() == Seq::<char>::empty());
        assert(digits_value(text.drop_last(), base as int) == 0);
    } else {
        assert(n / base < n && n / base > 0 && (n / base) * base + n % base == n && n % base < base)
            by (nonlinear_arith)
            requires
                1 < base <= n,
        ;
        law_digits_stand_for_the_number(n / base, base);
        let front = digits(n / base, base);
        let last = digit((n % base) as int);
        assert(text == front.push(last));
        assert(text.drop_last() == front);
        assert(text[0] == front[0]);
        assert(digit_value(last) == n % base);
        assert forall|i: int| 0 <= i < text.len() implies {
            let c = #[trigger] text[i];
            ('0' <= c <= '9' || 'a' <= c <= 'f') && 0 <= digit_value(c) < base
        } by {
            if i < front.len() {
                assert(text[i] == front[i]);
            }
        }
    }
}

/// Different numbers have different texts.
pub proof fn law_numbers_have_different_texts(a: int, b: int)
    ensures
        a >= 0 && b >= 0 && decimal(a as nat) == decimal(b as nat) ==> a == b,
        i64::MIN <= a <= i64::MAX && i64::MIN <= b <= i64::MAX && prefixed_hex(a) == prefixed_hex(b)
            ==> a == b,
{
    if a >= 0 && b >= 0 {
        law_digits_stand_for_the_number(a as nat, 10);
        law_digits_stand_for_the_number(b as nat, 10);
    }
    if i64::MIN <= a <= i64::MAX && i64::MIN <= b <= i64::MAX {
        let x = if a < 0 {
            a + 0x1_0000_0000_0000_0000
        } else {
            a
        };
        let y = if b < 0 {
            b + 0x1_0000_0000_0000_0000
        } else {
            b
        };
        law_digits_stand_for_the_number(x as nat, 16);
        law_digits_stand_for_the_number(y as nat, 16);
        if prefixed_hex(a) == prefixed_hex(b) {
            let n = "0x"@.len();
            assert(prefixed_hex(a).skip(n as int) == digits(x as nat, 16));
            assert(prefixed_hex(b).skip(n as int) == digits(y as nat, 16));
        }
    }
}

/// Letters, digits, percent signs and a few other characters are left in an encoded text,
/// so that nothing that separates fields or lines is in it.
pub proof fn law_encoded_texts_have_no_separators(bytes: Seq<u8>)
    ensures
        forall|i: int|
            0 <= i < percent_encoded(bytes).len() ==> {
                let c = #[trigger] percent_encoded(bytes)[i];
                c > ' ' && c <= '~' && c != '/' && c != '\\'
            },
    decreases bytes.len(),
{
    if bytes.len() > 0 {
        law_encoded_texts_have_no_separators(bytes.drop_last());
        let front = percent_encoded(bytes.drop_last());
        let all = percent_encoded(bytes);
        assert forall|i: int| 0 <= i < all.len() implies {
            let c = #[trigger] all[i];
            c > ' ' && c <= '~' && c != '/' && c != '\\'
        } by {
            if i < front.len() {
                assert(all[i] == front[i]);
            }
        }
    }
}

/// Trimming removes nothing but the given character, only at the start and at the end, and
/// all of it there.
pub proof fn law_trimming_keeps_the_middle(text: Seq<char>, c: char) -> (cut: (int, int))
    ensures
        0 <= cut.0 <= cut.1 <= text.len(),
        trimmed(text, c) == text.subrange(cut.0, cut.1),
        forall|i: int| 0 <= i < cut.0 || cut.1 <= i < text.len() ==> #[trigger] text[i] == c,
        trimmed(text, c).len() > 0 ==> trimmed(text, c)[0] != c && trimmed(text, c).last() != c,
{
    let start = lemma_trimmed_start(text, c);
    let rest = trim_start(text, c);
    let end = lemma_trimmed_end(rest, c);
    assert(trimmed(text, c) == text.subrange(start, start + end));
    assert forall|i: int| start + end <= i < text.len() implies #[trigger] text[i] == c by {
        assert(rest[i - start] == text[i]);
    }
    (start, start + end)
}

proof fn lemma_trimmed_start(text: Seq<char>, c: char) -> (start: int)
    ensures
        0 <= start <= text.len(),
        trim_start(text, c) == text.skip(start),
        forall|i: int| 0 <= i < start ==> #[trigger] text[i] == c,
        start < text.len() ==> text[start] != c,
    decreases text.len(),
{
    if text.len() > 0 && text[0] == c {
        let rest = text.drop_first();
        let inner = lemma_trimmed_start(rest, c);
        assert(rest.skip(inner) == text.skip(inner + 1));
        assert forall|i: int| 0 <= i < inner + 1 implies #[trigger] text[i] == c by {
            if i > 0 {
                assert(rest[i - 1] == text[i]);
            }
        }
        inner + 1
    } else {
        assert(text.skip(0) == text);
        0
    }
}

proof fn lemma_trimmed_end(text: Seq<char>, c: char) -> (end: int)
    ensures
        0 <= end <= text.len(),
        trim_end(text, c) == text.take(end),
        forall|i: int| end <= i < text.len() ==> #[trigger] text[i] == c,
        end > 0 ==> text[end - 1] != c,
    decreases text.len(),
{
    if text.len() > 0 && text.last() == c {
        let rest = text.drop_last();
        let end = lemma_trimmed_end(rest, c);
        assert(rest.take(end) == text.take(end));
        assert forall|i: int| end <= i < text.len() implies #[trigger] text[i] == c by {
            if i < rest.len() {
                assert(rest[i] == text[i]);
            }
        }
        end
    } else {
        assert(text.take(text.len() as int) == text);
        text.len() as int
    }
}

} // verus!
