//! Text forms of a 20-byte SHA-1 digest: lowercase hex and base64.
use vstd::prelude::*;
use vstd::utf8::{encode_utf8, is_ascii_chars, is_ascii_chars_encode_utf8};
use crate::hstring::{
    base64_text, base64_text_new, base64_text_push, hex_text, hex_text_as_str, hex_text_new,
    hex_text_push,
};

verus! {

/// The sixteen lowercase hex digits.
pub const LOWER_HEX_DIGITS: [char; 16] = [
    '0', '1', '2', '3', '4', '5', '6', '7', '8', '9', 'a', 'b', 'c', 'd', 'e', 'f',
];

/// The sixteen upper-case hex digits.
pub const UPPER_HEX_DIGITS: [char; 16] = [
    '0', '1', '2', '3', '4', '5', '6', '7', '8', '9', 'A', 'B', 'C', 'D', 'E', 'F',
];

/// The base64 alphabet of RFC 4648.
pub const BASE64_ALPHABET: [char; 64] = [
    'A', 'B', 'C', 'D', 'E', 'F', 'G', 'H', 'I', 'J', 'K', 'L', 'M', 'N', 'O', 'P', 'Q', 'R', 'S',
    'T', 'U', 'V', 'W', 'X', 'Y', 'Z', 'a', 'b', 'c', 'd', 'e', 'f', 'g', 'h', 'i', 'j', 'k', 'l',
    'm', 'n', 'o', 'p', 'q', 'r', 's', 't', 'u', 'v', 'w', 'x', 'y', 'z', '0', '1', '2', '3', '4',
    '5', '6', '7', '8', '9', '+', '/',
];

/// Each byte as two lowercase hex digits, high nibble first.
pub open spec fn lower_hex(bytes: Seq<u8>) -> Seq<char>
    decreases bytes.len(),
{
    if bytes.len() == 0 {
        Seq::empty()
    } else {
        let b = bytes.last();
        lower_hex(bytes.drop_last()) + seq![
            LOWER_HEX_DIGITS@[(b >> 4) as int],
            LOWER_HEX_DIGITS@[(b & 15) as int],
        ]
    }
}

/// The base64 encoding of RFC 4648, with `=` padding.
pub open spec fn base64(bytes: Seq<u8>) -> Seq<char>
    decreases bytes.len(),
{
    let t = BASE64_ALPHABET@;
    if bytes.len() >= 3 {
        let (b0, b1, b2) = (bytes[0], bytes[1], bytes[2]);
        seq![
            t[(b0 >> 2) as int],
            t[(((b0 & 3) << 4) | (b1 >> 4)) as int],
            t[(((b1 & 15) << 2) | (b2 >> 6)) as int],
            t[(b2 & 63) as int],
        ] + base64(bytes.skip(3))
    } else if bytes.len() == 2 {
        let (b0, b1) = (bytes[0], bytes[1]);
        seq![
            t[(b0 >> 2) as int],
            t[(((b0 & 3) << 4) | (b1 >> 4)) as int],
            t[((b1 & 15) << 2) as int],
            '=',
        ]
    } else if bytes.len() == 1 {
        let b0 = bytes[0];
        seq![t[(b0 >> 2) as int], t[((b0 & 3) << 4) as int], '=', '=']
    } else {
        Seq::empty()
    }
}

/// A hex digit of either case.
pub open spec fn is_hex_digit(c: char) -> bool {
    ('0' <= c <= '9') || ('a' <= c <= 'f') || ('A' <= c <= 'F')
}

/// The value of a hex digit.
pub open spec fn hex_digit_value(c: char) -> int {
    if '0' <= c <= '9' {
        c as int - '0' as int
    } else if 'a' <= c <= 'f' {
        c as int - 'a' as int + 10
    } else {
        c as int - 'A' as int + 10
    }
}

/// Two characters that `u8::from_str_radix(_, 16)` accepts: two hex digits, or a
/// `+` sign followed by one hex digit.
pub open spec fn is_hex_byte_text(c0: char, c1: char) -> bool {
    (is_hex_digit(c0) || c0 == '+') && is_hex_digit(c1)
}

/// The byte that two such characters denote.
pub open spec fn hex_byte_value(c0: char, c1: char) -> u8 {
    if c0 == '+' {
        hex_digit_value(c1) as u8
    } else {
        (16 * hex_digit_value(c0) + hex_digit_value(c1)) as u8
    }
}

/// A digest written as 40 characters, each pair of which denotes a byte.
pub open spec fn is_digest_hex(s: Seq<char>) -> bool {
    &&& s.len() == 40
    &&& forall|i: int| 0 <= i < 20 ==> #[trigger] is_hex_byte_text(s[2 * i], s[2 * i + 1])
}

/// The 20 bytes that such a text denotes.
pub open spec fn digest_from_hex(s: Seq<char>) -> Seq<u8> {
    Seq::new(20, |i: int| hex_byte_value(s[2 * i], s[2 * i + 1]))
}

fn hex_digit_byte_value(b: u8) -> (v: u8)
    requires
        is_hex_digit(b as char),
    ensures
        v as int == hex_digit_value(b as char),
        v < 16,
{
    if b >= 0x30 && b <= 0x39 {
        b - 0x30
    } else if b >= 0x61 && b <= 0x66 {
        b - 0x61 + 10
    } else {
        b - 0x41 + 10
    }
}

fn is_hex_digit_byte(b: u8) -> (r: bool)
    ensures
        r == is_hex_digit(b as char),
{
    (b >= 0x30 && b <= 0x39) || (b >= 0x61 && b <= 0x66) || (b >= 0x41 && b <= 0x46)
}

/// Whether `sha1_str_2_bytes` can read this text: 40 characters, each pair of which is
/// two hex digits or a `+` and a hex digit.
pub fn is_digest_hex_text(input: &str) -> (b: bool)
    ensures
        b == is_digest_hex(input@),
{
    if input.unicode_len() != 40 {
        return false;
    }
    let mut i: usize = 0;
    while i < 20
        invariant
            i <= 20,
            input@.len() == 40,
            forall|j: int| 0 <= j < i ==> #[trigger] is_hex_byte_text(input@[2 * j], input@[2 * j + 1]),
        decreases 20 - i,
    {
        let c0 = input.get_char(2 * i);
        let c1 = input.get_char(2 * i + 1);
        let ok1 = c1 <= '\u{7f}' && is_hex_digit_byte(c1 as u8);
        let ok0 = c0 == '+' || (c0 <= '\u{7f}' && is_hex_digit_byte(c0 as u8));
        assert(c0 <= '\u{7f}' ==> (c0 as u8) as char == c0);
        assert(c1 <= '\u{7f}' ==> (c1 as u8) as char == c1);
        if !(ok0 && ok1) {
            assert(!is_hex_byte_text(input@[2 * (i as int)], input@[2 * (i as int) + 1]));
            return false;
        }
        i = i + 1;
    }
    true
}

/// Reads a digest back from its 40-character hex text.
pub fn sha1_str_2_bytes(input: &str) -> (res: [u8; 20])
    requires
        is_digest_hex(input@),
    ensures
        res@ == digest_from_hex(input@),
{
    let ghost s = input@;
    assert(is_ascii_chars(s)) by {
        assert forall|j: int| 0 <= j < s.len() implies '\0' <= #[trigger] s[j] <= '\u{7f}' by {
            let i = j / 2;
            assert(is_hex_byte_text(s[2 * i], s[2 * i + 1]));
        }
    }
    proof {
        is_ascii_chars_encode_utf8(s);
    }
    let bytes = input.as_bytes();
    let mut res: [u8; 20] = [0u8; 20];
    let mut i: usize = 0;
    while i < 20
        invariant
            i <= 20,
            s == input@,
            is_digest_hex(s),
            bytes@ == encode_utf8(s),
            bytes@.len() == 40,
            forall|j: int| 0 <= j < 40 ==> s[j] as u8 == #[trigger] bytes@[j],
            forall|j: int| 0 <= j < 40 ==> '\0' <= #[trigger] s[j] <= '\u{7f}',
            res@.len() == 20,
            forall|j: int| 0 <= j < i ==> res@[j] == #[trigger] hex_byte_value(s[2 * j], s[2 * j + 1]),
        decreases 20 - i,
    {
        let ghost ii = i as int;
        assert(is_hex_byte_text(s[2 * ii], s[2 * ii + 1]));
        let b0 = bytes[2 * i];
        let b1 = bytes[2 * i + 1];
        assert(b0 as char == s[2 * ii]);
        assert(b1 as char == s[2 * ii + 1]);
        let lo = hex_digit_byte_value(b1);
        if b0 == 0x2b {
            res[i] = lo;
        } else {
            let hi = hex_digit_byte_value(b0);
            res[i] = hi * 16 + lo;
        }
        i = i + 1;
    }
    assert(res@ =~= digest_from_hex(s));
    res
}

/// Writes a digest as 40 lowercase hex digits.
pub fn sha1_bytes_2_str(input: &[u8; 20]) -> (res: heapless::String<40>)
    ensures
        hex_text(res) == lower_hex(input@),
{
    let mut res = hex_text_new();
    let mut i: usize = 0;
    while i < 20
        invariant
            i <= 20,
            input@.len() == 20,
            hex_text(res) == lower_hex(input@.take(i as int)),
            hex_text(res).len() == 2 * i,
            is_ascii_chars(hex_text(res)),
        decreases 20 - i,
    {
        let byte = input[i];
        assert(byte >> 4 < 16 && byte & 15 < 16) by (bit_vector);
        let hi = LOWER_HEX_DIGITS[(byte >> 4) as usize];
        let lo = LOWER_HEX_DIGITS[(byte & 15) as usize];
        let ghost before = hex_text(res);
        proof {
            is_ascii_chars_encode_utf8(before);
            is_ascii_chars_encode_utf8(seq![hi]);
        }
        let r1 = hex_text_push(&mut res, hi);
        assert(r1 is Ok);
        let ghost mid = hex_text(res);
        proof {
            assert(is_ascii_chars(mid));
            is_ascii_chars_encode_utf8(mid);
            is_ascii_chars_encode_utf8(seq![lo]);
        }
        let r2 = hex_text_push(&mut res, lo);
        assert(r2 is Ok);
        assert(input@.take(i + 1).drop_last() =~= input@.take(i as int));
        assert(hex_text(res) =~= lower_hex(input@.take(i + 1)));
        i = i + 1;
    }
    assert(input@.take(20) =~= input@);
    res
}

fn push_base64(res: &mut heapless::String<28>, c: char)
    requires
        is_ascii_chars(base64_text(*old(res))),
        base64_text(*old(res)).len() < 28,
        c <= '\u{7f}',
    ensures
        base64_text(*final(res)) == base64_text(*old(res)).push(c),
        is_ascii_chars(base64_text(*final(res))),
{
    proof {
        is_ascii_chars_encode_utf8(base64_text(*res));
        is_ascii_chars_encode_utf8(seq![c]);
    }
    let r = base64_text_push(res, c);
    assert(r is Ok);
}

proof fn lemma_base64_group(bytes: Seq<u8>)
    requires
        bytes.len() >= 3,
    ensures
        base64(bytes) == seq![
            BASE64_ALPHABET@[(bytes[0] >> 2) as int],
            BASE64_ALPHABET@[(((bytes[0] & 3) << 4) | (bytes[1] >> 4)) as int],
            BASE64_ALPHABET@[(((bytes[1] & 15) << 2) | (bytes[2] >> 6)) as int],
            BASE64_ALPHABET@[(bytes[2] & 63) as int],
        ] + base64(bytes.skip(3)),
{
}

/// Writes a digest in base64, as the `Sec-WebSocket-Accept` header carries it.
pub fn sha1_bytes_2_base64(input: &[u8; 20]) -> (res: heapless::String<28>)
    ensures
        base64_text(res) == base64(input@),
        base64_text(res).len() == 28,
        is_ascii_chars(base64_text(res)),
{
    let mut res = base64_text_new();
    let table = BASE64_ALPHABET;
    let ghost t = BASE64_ALPHABET@;
    let mut i: usize = 0;
    assert(input@.skip(0) =~= input@);
    while i < 6
        invariant
            i <= 6,
            input@.len() == 20,
            table@ == t,
            t == BASE64_ALPHABET@,
            base64_text(res) + base64(input@.skip(3 * i)) == base64(input@),
            base64_text(res).len() == 4 * i,
            is_ascii_chars(base64_text(res)),
        decreases 6 - i,
    {
        let b0 = input[i * 3];
        let b1 = input[i * 3 + 1];
        let b2 = input[i * 3 + 2];
        assert(b0 >> 2 < 64 && ((b0 & 0b11) << 4) | (b1 >> 4) < 64) by (bit_vector);
        assert(((b1 & 0b1111) << 2) | (b2 >> 6) < 64 && b2 & 0b111111 < 64) by (bit_vector);
        let ghost before = base64_text(res);
        let ghost rest = input@.skip(3 * i);
        assert(rest[0] == b0 && rest[1] == b1 && rest[2] == b2);
        assert(rest.skip(3) =~= input@.skip(3 * (i + 1)));
        proof {
            lemma_base64_group(rest);
        }
        push_base64(&mut res, table[(b0 >> 2) as usize]);
        push_base64(&mut res, table[(((b0 & 0b11) << 4) | (b1 >> 4)) as usize]);
        push_base64(&mut res, table[(((b1 & 0b1111) << 2) | (b2 >> 6)) as usize]);
        push_base64(&mut res, table[(b2 & 0b111111) as usize]);
        assert(base64_text(res) + base64(input@.skip(3 * (i + 1))) =~= before + base64(rest));
        i = i + 1;
    }
    let b18 = input[18];
    let b19 = input[19];
    assert(b18 >> 2 < 64 && ((b18 & 0b11) << 4) | (b19 >> 4) < 64) by (bit_vector);
    assert((b19 & 0b1111) << 2 < 64) by (bit_vector);
    let ghost before = base64_text(res);
    let ghost rest = input@.skip(18);
    assert(rest.len() == 2 && rest[0] == b18 && rest[1] == b19);
    push_base64(&mut res, table[(b18 >> 2) as usize]);
    push_base64(&mut res, table[(((b18 & 0b11) << 4) | (b19 >> 4)) as usize]);
    push_base64(&mut res, table[((b19 & 0b1111) << 2) as usize]);
    push_base64(&mut res, '=');
    assert(base64_text(res) =~= before + base64(rest));
    res
}

proof fn lemma_lower_hex_index(bytes: Seq<u8>)
    ensures
        lower_hex(bytes).len() == 2 * bytes.len(),
        forall|i: int|
            0 <= i < bytes.len() ==> {
                &&& #[trigger] lower_hex(bytes)[2 * i] == LOWER_HEX_DIGITS@[(bytes[i] >> 4) as int]
                &&& lower_hex(bytes)[2 * i + 1] == LOWER_HEX_DIGITS@[(bytes[i] & 15) as int]
            },
    decreases bytes.len(),
{
    if bytes.len() > 0 {
        let prev = bytes.drop_last();
        lemma_lower_hex_index(prev);
        let b = bytes.last();
        let pair = seq![LOWER_HEX_DIGITS@[(b >> 4) as int], LOWER_HEX_DIGITS@[(b & 15) as int]];
        assert(lower_hex(bytes) == lower_hex(prev) + pair);
        assert forall|i: int| 0 <= i < bytes.len() implies {
            &&& #[trigger] lower_hex(bytes)[2 * i] == LOWER_HEX_DIGITS@[(bytes[i] >> 4) as int]
            &&& lower_hex(bytes)[2 * i + 1] == LOWER_HEX_DIGITS@[(bytes[i] & 15) as int]
        } by {
            if i < prev.len() {
                assert(bytes[i] == prev[i]);
                assert(lower_hex(bytes)[2 * i] == lower_hex(prev)[2 * i]);
                assert(lower_hex(bytes)[2 * i + 1] == lower_hex(prev)[2 * i + 1]);
            } else {
                assert(lower_hex(bytes)[2 * i] == pair[0]);
                assert(lower_hex(bytes)[2 * i + 1] == pair[1]);
            }
        }
    }
}

proof fn lemma_lower_hex_digit(n: u8)
    requires
        n < 16,
    ensures
        is_hex_digit(LOWER_HEX_DIGITS@[n as int]),
        hex_digit_value(LOWER_HEX_DIGITS@[n as int]) == n,
        LOWER_HEX_DIGITS@[n as int] != '+',
{
}

/// Reads a digest back from the hex text held in a 40-byte string, as
/// `sha1_str_2_bytes` reads it from the string's slice; `None` when the text is not
/// the hex text of a digest.
pub fn sha1_string_2_bytes(input: &heapless::String<40>) -> (res: Option<[u8; 20]>)
    ensures
        res is Some <==> is_digest_hex(hex_text(*input)),
        res matches Some(d) ==> d@ == digest_from_hex(hex_text(*input)),
{
    let text = hex_text_as_str(input);
    if is_digest_hex_text(text) {
        Some(sha1_str_2_bytes(text))
    } else {
        None
    }
}

/// Reading back the lowercase hex text of a digest gives the digest.
pub proof fn lemma_digest_hex_roundtrip(bytes: Seq<u8>)
    requires
        bytes.len() == 20,
    ensures
        is_digest_hex(lower_hex(bytes)),
        digest_from_hex(lower_hex(bytes)) == bytes,
{
    let s = lower_hex(bytes);
    lemma_lower_hex_index(bytes);
    assert forall|i: int| 0 <= i < 20 implies is_hex_byte_text(s[2 * i], s[2 * i + 1])
        && #[trigger] hex_byte_value(s[2 * i], s[2 * i + 1]) == bytes[i] by {
        let b = bytes[i];
        assert(b >> 4 < 16 && b & 15 < 16) by (bit_vector);
        lemma_lower_hex_digit(b >> 4);
        lemma_lower_hex_digit(b & 15);
        assert(16 * ((b >> 4) as int) + ((b & 15) as int) == b as int) by (bit_vector);
    }
    assert forall|i: int| 0 <= i < 20 implies #[trigger] is_hex_byte_text(s[2 * i], s[2 * i + 1]) by {
        assert(hex_byte_value(s[2 * i], s[2 * i + 1]) == bytes[i]);
    }
    assert(digest_from_hex(s) =~= bytes);
}

/// Either form of the hex digit for `n`: lower or upper case.
pub open spec fn is_hex_digit_for(c: char, n: int) -> bool {
    0 <= n < 16 && (c == LOWER_HEX_DIGITS@[n] || c == UPPER_HEX_DIGITS@[n])
}

proof fn lemma_any_case_hex_digit(c: char, n: int)
    requires
        is_hex_digit_for(c, n),
    ensures
        is_hex_digit(c),
        hex_digit_value(c) == n,
        c != '+',
{
}

/// Hex text of a digest in any mix of cases reads back as the digest: each byte
/// written as its high and its low hex digit, each digit in lower or upper case (as
/// `u8::from_str_radix` takes both).
pub proof fn lemma_digest_hex_any_case(bytes: Seq<u8>, s: Seq<char>)
    requires
        bytes.len() == 20,
        s.len() == 40,
        forall|i: int|
            0 <= i < 20 ==> is_hex_digit_for(#[trigger] s[2 * i], (bytes[i] / 16) as int)
                && is_hex_digit_for(s[2 * i + 1], (bytes[i] % 16) as int),
    ensures
        is_digest_hex(s),
        digest_from_hex(s) == bytes,
{
    assert forall|i: int| 0 <= i < 20 implies #[trigger] is_hex_byte_text(s[2 * i], s[2 * i + 1])
        && hex_byte_value(s[2 * i], s[2 * i + 1]) == bytes[i] by {
        let b = bytes[i];
        lemma_any_case_hex_digit(s[2 * i], (b / 16) as int);
        lemma_any_case_hex_digit(s[2 * i + 1], (b % 16) as int);
        assert(16 * (b / 16) + b % 16 == b);
    }
    assert(digest_from_hex(s) =~= bytes);
}

/// The upper-case hex text of a digest reads back as the digest.
pub proof fn lemma_digest_upper_hex_roundtrip(bytes: Seq<u8>)
    requires
        bytes.len() == 20,
    ensures
        ({
            let s = Seq::new(
                40,
                |j: int|
                    if j % 2 == 0 {
                        UPPER_HEX_DIGITS@[(bytes[j / 2] / 16) as int]
                    } else {
                        UPPER_HEX_DIGITS@[(bytes[j / 2] % 16) as int]
                    },
            );
            &&& is_digest_hex(s)
            &&& digest_from_hex(s) == bytes
        }),
{
    let s = Seq::new(
        40,
        |j: int|
            if j % 2 == 0 {
                UPPER_HEX_DIGITS@[(bytes[j / 2] / 16) as int]
            } else {
                UPPER_HEX_DIGITS@[(bytes[j / 2] % 16) as int]
            },
    );
    assert forall|i: int| 0 <= i < 20 implies is_hex_digit_for(#[trigger] s[2 * i], (bytes[i] / 16) as int)
        && is_hex_digit_for(s[2 * i + 1], (bytes[i] % 16) as int) by {
        assert((2 * i) % 2 == 0 && (2 * i) / 2 == i);
        assert((2 * i + 1) % 2 == 1 && (2 * i + 1) / 2 == i);
    }
    lemma_digest_hex_any_case(bytes, s);
}

/// The 6-bit value of a base64 character, by the table of RFC 4648, section 4; `-1`
/// for a character outside the alphabet.
pub open spec fn base64_value(c: char) -> int {
    if 'A' <= c <= 'Z' {
        c as int - 'A' as int
    } else if 'a' <= c <= 'z' {
        c as int - 'a' as int + 26
    } else if '0' <= c <= '9' {
        c as int - '0' as int + 52
    } else if c == '+' {
        62
    } else if c == '/' {
        63
    } else {
        -1
    }
}

proof fn lemma_alphabet_values()
    ensures
        forall|n: int| 0 <= n < 64 ==> #[trigger] base64_value(BASE64_ALPHABET@[n]) == n,
{
    assert forall|n: int| 0 <= n < 64 implies #[trigger] base64_value(BASE64_ALPHABET@[n]) == n by {
        if n < 26 {
        } else if n < 52 {
        } else {
        }
    }
}

/// The three bytes at `3 * i` can be read back from the four characters at `4 * i`.
pub open spec fn base64_group_decodes(s: Seq<char>, bytes: Seq<u8>, i: int) -> bool {
    let (v0, v1, v2, v3) = (
        base64_value(s[4 * i]),
        base64_value(s[4 * i + 1]),
        base64_value(s[4 * i + 2]),
        base64_value(s[4 * i + 3]),
    );
    &&& 0 <= v0 < 64 && 0 <= v1 < 64 && 0 <= v2 < 64 && 0 <= v3 < 64
    &&& bytes[3 * i] == v0 * 4 + v1 / 16
    &&& bytes[3 * i + 1] == (v1 % 16) * 16 + v2 / 4
    &&& bytes[3 * i + 2] == (v2 % 4) * 64 + v3
}

/// Base64 as RFC 4648 defines it, read backwards: four characters for every three
/// bytes, each full group of three bytes recovered from its four characters by the
/// alphabet's values, and a last group of one or two bytes recovered from two or
/// three characters whose unused bits are zero, padded with `=`.
pub proof fn lemma_base64_decodes(bytes: Seq<u8>)
    ensures
        ({
            let s = base64(bytes);
            let n = bytes.len() as int;
            let q = n / 3;
            &&& s.len() == 4 * ((n + 2) / 3)
            &&& forall|i: int| 0 <= i < q ==> #[trigger] base64_group_decodes(s, bytes, i)
            &&& n % 3 == 1 ==> {
                let (v0, v1) = (base64_value(s[4 * q]), base64_value(s[4 * q + 1]));
                &&& 0 <= v0 < 64 && 0 <= v1 < 64 && v1 % 16 == 0
                &&& bytes[n - 1] == v0 * 4 + v1 / 16
                &&& s[4 * q + 2] == '=' && s[4 * q + 3] == '='
            }
            &&& n % 3 == 2 ==> {
                let (v0, v1, v2) = (
                    base64_value(s[4 * q]),
                    base64_value(s[4 * q + 1]),
                    base64_value(s[4 * q + 2]),
                );
                &&& 0 <= v0 < 64 && 0 <= v1 < 64 && 0 <= v2 < 64 && v2 % 4 == 0
                &&& bytes[n - 2] == v0 * 4 + v1 / 16
                &&& bytes[n - 1] == (v1 % 16) * 16 + v2 / 4
                &&& s[4 * q + 3] == '='
            }
        }),
    decreases bytes.len(),
{
    lemma_alphabet_values();
    let s = base64(bytes);
    let n = bytes.len() as int;
    let t = BASE64_ALPHABET@;
    if n >= 3 {
        let rest = bytes.skip(3);
        lemma_base64_decodes(rest);
        let r = base64(rest);
        let (b0, b1, b2) = (bytes[0], bytes[1], bytes[2]);
        let (c0, c1, c2, c3) = (
            (b0 >> 2) as int,
            (((b0 & 3) << 4) | (b1 >> 4)) as int,
            (((b1 & 15) << 2) | (b2 >> 6)) as int,
            (b2 & 63) as int,
        );
        assert(c0 < 64 && c1 < 64 && c2 < 64 && c3 < 64) by {
            assert((b0 >> 2) < 64 && (((b0 & 3) << 4) | (b1 >> 4)) < 64 && (((b1 & 15) << 2) | (b2
                >> 6)) < 64 && (b2 & 63) < 64) by (bit_vector);
        }
        assert(s =~= seq![t[c0], t[c1], t[c2], t[c3]] + r);
        assert(base64_group_decodes(s, bytes, 0)) by {
            assert(s[0] == t[c0] && s[1] == t[c1] && s[2] == t[c2] && s[3] == t[c3]);
            assert(b0 as int == (b0 >> 2) as int * 4 + ((((b0 & 3) << 4) | (b1 >> 4)) as int) / 16
                && b1 as int == (((((b0 & 3) << 4) | (b1 >> 4)) as int) % 16) * 16 + ((((b1 & 15) << 2)
                | (b2 >> 6)) as int) / 4 && b2 as int == (((((b1 & 15) << 2) | (b2 >> 6)) as int) % 4)
                * 64 + (b2 & 63) as int) by (bit_vector);
        }
        assert forall|i: int| 0 <= i < n / 3 implies #[trigger] base64_group_decodes(s, bytes, i) by {
            if i > 0 {
                assert(base64_group_decodes(r, rest, i - 1));
                assert(s[4 * i] == r[4 * (i - 1)]);
                assert(s[4 * i + 1] == r[4 * (i - 1) + 1]);
                assert(s[4 * i + 2] == r[4 * (i - 1) + 2]);
                assert(s[4 * i + 3] == r[4 * (i - 1) + 3]);
                assert(bytes[3 * i] == rest[3 * (i - 1)]);
                assert(bytes[3 * i + 1] == rest[3 * (i - 1) + 1]);
                assert(bytes[3 * i + 2] == rest[3 * (i - 1) + 2]);
            }
        }
        let q = n / 3;
        let m = rest.len() as int;
        assert(m / 3 == q - 1 && m % 3 == n % 3);
        if n % 3 == 1 {
            assert(s[4 * q] == r[4 * (q - 1)]);
            assert(s[4 * q + 1] == r[4 * (q - 1) + 1]);
            assert(s[4 * q + 2] == r[4 * (q - 1) + 2]);
            assert(s[4 * q + 3] == r[4 * (q - 1) + 3]);
            assert(bytes[n - 1] == rest[m - 1]);
        }
        if n % 3 == 2 {
            assert(s[4 * q] == r[4 * (q - 1)]);
            assert(s[4 * q + 1] == r[4 * (q - 1) + 1]);
            assert(s[4 * q + 2] == r[4 * (q - 1) + 2]);
            assert(s[4 * q + 3] == r[4 * (q - 1) + 3]);
            assert(bytes[n - 1] == rest[m - 1]);
            assert(bytes[n - 2] == rest[m - 2]);
        }
    } else if n == 2 {
        let (b0, b1) = (bytes[0], bytes[1]);
        let (c0, c1, c2) = (
            (b0 >> 2) as int,
            (((b0 & 3) << 4) | (b1 >> 4)) as int,
            ((b1 & 15) << 2) as int,
        );
        assert(c0 < 64 && c1 < 64 && c2 < 64 && c2 % 4 == 0) by {
            assert((b0 >> 2) < 64 && (((b0 & 3) << 4) | (b1 >> 4)) < 64 && ((b1 & 15) << 2) < 64
                && ((b1 & 15) << 2) % 4 == 0) by (bit_vector);
        }
        assert(b0 as int == (b0 >> 2) as int * 4 + ((((b0 & 3) << 4) | (b1 >> 4)) as int) / 16
            && b1 as int == (((((b0 & 3) << 4) | (b1 >> 4)) as int) % 16) * 16 + (((b1 & 15) << 2)
            as int) / 4) by (bit_vector);
        assert(s[0] == t[c0] && s[1] == t[c1] && s[2] == t[c2]);
    } else if n == 1 {
        let b0 = bytes[0];
        let (c0, c1) = ((b0 >> 2) as int, ((b0 & 3) << 4) as int);
        assert(c0 < 64 && c1 < 64 && c1 % 16 == 0) by {
            assert((b0 >> 2) < 64 && ((b0 & 3) << 4) < 64 && ((b0 & 3) << 4) % 16 == 0) by (bit_vector);
        }
        assert(b0 as int == (b0 >> 2) as int * 4 + (((b0 & 3) << 4) as int) / 16) by (bit_vector);
        assert(s[0] == t[c0] && s[1] == t[c1]);
    }
}

} // verus!
