//! Hex and base64: bytes to text and back.

use vstd::prelude::*;
use vstd::std_specs::iter::IteratorSpec;

verus! {

/// `String::push` appends one character to the end of the string.
pub assume_specification[ String::push ](s: &mut String, ch: char)
    ensures
        final(s)@ == old(s)@.push(ch),
;

/// The lower-case hex digit of a value below 16: `0` to `9`, then `a` to `f`.
pub open spec fn hex_symbol(nibble: u8) -> char {
    if nibble < 10 {
        (0x30 + nibble) as char
    } else {
        (0x57 + nibble) as char
    }
}

/// The value of a lower-case hex digit, and `None` for any other character.
pub open spec fn hex_value(c: char) -> Option<u8> {
    if '0' <= c <= '9' {
        Some((c as u8 - 0x30) as u8)
    } else if 'a' <= c <= 'f' {
        Some((c as u8 - 0x57) as u8)
    } else {
        None
    }
}

/// Two hex digits for each byte, the high half first.
pub open spec fn hex_text(bytes: Seq<u8>) -> Seq<char> {
    Seq::new(
        2 * bytes.len(),
        |i: int|
            if i % 2 == 0 {
                hex_symbol(bytes[i / 2] >> 4)
            } else {
                hex_symbol(bytes[i / 2] & 0x0f)
            },
    )
}

/// Every character is a lower-case hex digit.
pub open spec fn is_hex(text: Seq<char>) -> bool {
    forall|i: int| 0 <= i < text.len() ==> hex_value(#[trigger] text[i]) is Some
}

/// One byte for each pair of hex digits; a last digit without a partner is
/// left out.
pub open spec fn hex_bytes(text: Seq<char>) -> Seq<u8> {
    Seq::new(
        text.len() / 2,
        |k: int| (hex_value(text[2 * k])->0 << 4) | hex_value(text[2 * k + 1])->0,
    )
}

/// A hex digit has the value that it was written for.
pub proof fn lemma_hex_symbol_value(nibble: u8)
    requires
        nibble < 16,
    ensures
        hex_value(hex_symbol(nibble)) == Some(nibble),
{
}

/// Reading the hex text of bytes gives the bytes back.
pub proof fn lemma_hex_round_trip(bytes: Seq<u8>)
    ensures
        is_hex(hex_text(bytes)),
        hex_bytes(hex_text(bytes)) == bytes,
{
    let text = hex_text(bytes);
    assert forall|i: int| 0 <= i < text.len() implies hex_value(#[trigger] text[i]) is Some by {
        let b = bytes[i / 2];
        assert(b >> 4 < 16 && b & 0x0f < 16) by (bit_vector);
        lemma_hex_symbol_value(b >> 4);
        lemma_hex_symbol_value(b & 0x0f);
    }
    assert forall|k: int| 0 <= k < bytes.len() implies hex_bytes(text)[k] == bytes[k] by {
        let b = bytes[k];
        assert(b >> 4 < 16 && b & 0x0f < 16 && ((b >> 4) << 4) | (b & 0x0f) == b) by (bit_vector);
        lemma_hex_symbol_value(b >> 4);
        lemma_hex_symbol_value(b & 0x0f);
        assert(text[2 * k] == hex_symbol(bytes[(2 * k) / 2] >> 4));
        assert(text[2 * k + 1] == hex_symbol(bytes[(2 * k + 1) / 2] & 0x0f));
    }
    assert(hex_bytes(text) =~= bytes);
}

fn hex_digit(nibble: u8) -> (c: char)
    requires
        nibble < 16,
    ensures
        c == hex_symbol(nibble),
{
    if nibble < 10 {
        (0x30 + nibble) as char
    } else {
        (0x57 + nibble) as char
    }
}

fn hex_digit_value(c: char) -> (v: Option<u8>)
    ensures
        v == hex_value(c),
        v matches Some(n) ==> n < 16,
{
    if '0' <= c && c <= '9' {
        Some(c as u8 - 0x30)
    } else if 'a' <= c && c <= 'f' {
        Some(c as u8 - 0x57)
    } else {
        None
    }
}

/// The two hex digits of a byte.
pub fn byte_to_hex(byte: u8) -> (text: String)
    ensures
        text@ == hex_text(seq![byte]),
{
    let upper: u8 = byte >> 4;
    let lower: u8 = byte & 0x0f;
    assert(upper < 16 && lower < 16) by (bit_vector)
        requires
            upper == byte >> 4,
            lower == byte & 0x0f,
    ;
    let mut text = String::new();
    text.push(hex_digit(upper));
    text.push(hex_digit(lower));
    assert(text@ =~= hex_text(seq![byte]));
    text
}

/// Writes bytes as lower-case hex.
pub fn hex_encode(bytes: &[u8]) -> (text: String)
    ensures
        text@ == hex_text(bytes@),
{
    let mut text = String::new();
    let mut i: usize = 0;
    while i < bytes.len()
        invariant
            i <= bytes.len(),
            text@ =~= hex_text(bytes@.take(i as int)),
        decreases bytes.len() - i,
    {
        let digits = byte_to_hex(bytes[i]);
        text.append(digits.as_str());
        i = i + 1;
    }
    assert(bytes@.take(i as int) =~= bytes@);
    text
}

/// Tells whether `text` holds lower-case hex digits only.
pub fn is_hex_text(text: &str) -> (yes: bool)
    ensures
        yes == is_hex(text@),
{
    let mut yes = true;
    for c in it: text.chars()
        invariant
            it.seq() == text@,
            yes == is_hex(text@.take(it.index())),
    {
        proof {
            let seen = text@.take(it.index());
            let next = text@.take(it.index() + 1);
            assert(next[it.index()] == c);
            assert(forall|i: int| 0 <= i < seen.len() ==> seen[i] == next[i]);
        }
        if hex_digit_value(c).is_none() {
            yes = false;
        }
    }
    assert(text@.take(text@.len() as int) =~= text@);
    yes
}

/// Reads lower-case hex back into bytes.
pub fn hex_decode(hex: &String) -> (bytes: Vec<u8>)
    requires
        is_hex(hex@),
    ensures
        bytes@ == hex_bytes(hex@),
{
    let mut bytes: Vec<u8> = Vec::new();
    let mut upper: Option<u8> = None;
    for c in it: hex.as_str().chars()
        invariant
            it.seq() == hex@,
            is_hex(hex@),
            bytes@ =~= hex_bytes(hex@.take(it.index())),
            it.index() % 2 == 0 ==> upper is None,
            it.index() % 2 == 1 ==> upper == hex_value(hex@[it.index() - 1]),
    {
        let nibble = match hex_digit_value(c) {
            Some(n) => n,
            None => 0,
        };
        match upper {
            None => {
                upper = Some(nibble);
            },
            Some(high) => {
                bytes.push(high << 4 | nibble);
                upper = None;
            },
        }
    }
    assert(hex@.take(hex@.len() as int) =~= hex@);
    bytes
}

/// The base64 symbol of a value below 64.
pub open spec fn base64_symbol(v: u8) -> char {
    if v < 26 {
        (0x41 + v) as char
    } else if v < 52 {
        (0x47 + v) as char
    } else if v < 62 {
        (v - 4) as char
    } else if v == 62 {
        '+'
    } else {
        '/'
    }
}

/// The value of a base64 symbol, and `None` for any other character.
pub open spec fn base64_value(c: char) -> Option<u8> {
    if 'A' <= c <= 'Z' {
        Some((c as u8 - 0x41) as u8)
    } else if 'a' <= c <= 'z' {
        Some((c as u8 - 0x47) as u8)
    } else if '0' <= c <= '9' {
        Some((c as u8 + 4) as u8)
    } else if c == '+' {
        Some(62u8)
    } else if c == '/' {
        Some(63u8)
    } else {
        None
    }
}

/// The byte at `i`, and 0 past the end.
pub open spec fn byte_or_zero(bytes: Seq<u8>, i: int) -> u8 {
    if 0 <= i < bytes.len() {
        bytes[i]
    } else {
        0
    }
}

/// The character at place `p` of the base64 text of `bytes`: each group of
/// three bytes gives four symbols of six bits, and a last group of one or two
/// bytes is filled up with `=`.
pub open spec fn base64_char_at(bytes: Seq<u8>, p: int) -> char {
    let group = p / 4;
    let b0 = byte_or_zero(bytes, 3 * group);
    let b1 = byte_or_zero(bytes, 3 * group + 1);
    let b2 = byte_or_zero(bytes, 3 * group + 2);
    if p % 4 == 0 {
        base64_symbol(b0 >> 2)
    } else if p % 4 == 1 {
        base64_symbol(((b0 & 0x03) << 4) | (b1 >> 4))
    } else if p % 4 == 2 {
        if 3 * group + 1 < bytes.len() {
            base64_symbol(((b1 & 0x0f) << 2) | (b2 >> 6))
        } else {
            '='
        }
    } else {
        if 3 * group + 2 < bytes.len() {
            base64_symbol(b2 & 0x3f)
        } else {
            '='
        }
    }
}

/// The base64 text of `bytes`, padded to a multiple of four characters.
pub open spec fn base64_text(bytes: Seq<u8>) -> Seq<char> {
    Seq::new(4 * ((bytes.len() + 2) / 3), |p: int| base64_char_at(bytes, p))
}

/// The number of characters before the first `=`, or the whole length where
/// there is none.
pub open spec fn payload_len(text: Seq<char>) -> nat
    decreases text.len(),
{
    if text.len() == 0 || text.first() == '=' {
        0
    } else {
        1 + payload_len(text.drop_first())
    }
}

/// Every character before the first `=` is a base64 symbol.
pub open spec fn is_base64(text: Seq<char>) -> bool {
    forall|i: int| 0 <= i < payload_len(text) ==> base64_value(#[trigger] text[i]) is Some
}

/// The byte that the symbol values `prev` and `cur` give where `cur` stands
/// at place `r` of its group of four: what is left of `prev`, then the high
/// bits of `cur`.
pub open spec fn sextets_joined(prev: u8, cur: u8, r: int) -> u8 {
    if r == 1 {
        (prev << 2) | (cur >> 4)
    } else if r == 2 {
        (prev << 4) | (cur >> 2)
    } else {
        (prev << 6) | cur
    }
}

/// The `k`-th byte that the symbols of `text` hold.
pub open spec fn base64_byte_at(text: Seq<char>, k: int) -> u8 {
    let i = k + k / 3 + 1;
    sextets_joined(base64_value(text[i - 1])->0, base64_value(text[i])->0, i % 4)
}

/// The bytes of a base64 text: those that the symbols before the first `=`
/// hold, a byte for each symbol but the first of every group of four.
pub open spec fn base64_bytes(text: Seq<char>) -> Seq<u8> {
    let n = payload_len(text);
    Seq::new((n - (n + 3) / 4) as nat, |k: int| base64_byte_at(text, k))
}

/// A base64 symbol has the value that it was written for, and is not the
/// padding character.
pub proof fn lemma_base64_symbol_value(v: u8)
    requires
        v < 64,
    ensures
        base64_value(base64_symbol(v)) == Some(v),
        base64_symbol(v) != '=',
{
}

/// The base64 text of `n` bytes holds `n` symbols and one more for each
/// group of three bytes begun, and padding behind them only.
pub proof fn lemma_base64_text_payload(bytes: Seq<u8>)
    ensures
        payload_len(base64_text(bytes)) == bytes.len() + (bytes.len() + 2) / 3,
        is_base64(base64_text(bytes)),
{
    let text = base64_text(bytes);
    let n = bytes.len() as int;
    let m = n + (n + 2) / 3;
    assert forall|p: int| 0 <= p < m implies text[p] != '=' && base64_value(
        #[trigger] text[p],
    ) is Some by {
        lemma_base64_char_is_symbol(bytes, p);
    }
    if m < text.len() {
        assert(text[m] == '=');
    }
    lemma_payload_len_is(text, m);
}

/// The characters that stand for bytes are symbols.
proof fn lemma_base64_char_is_symbol(bytes: Seq<u8>, p: int)
    requires
        0 <= p < bytes.len() + (bytes.len() + 2) / 3,
    ensures
        base64_char_at(bytes, p) != '=',
        base64_value(base64_char_at(bytes, p)) is Some,
{
    let group = p / 4;
    let b0 = byte_or_zero(bytes, 3 * group);
    let b1 = byte_or_zero(bytes, 3 * group + 1);
    let b2 = byte_or_zero(bytes, 3 * group + 2);
    assert(b0 >> 2 < 64 && ((b0 & 0x03) << 4) | (b1 >> 4) < 64 && ((b1 & 0x0f) << 2) | (b2 >> 6)
        < 64 && b2 & 0x3f < 64) by (bit_vector);
    lemma_base64_symbol_value(b0 >> 2);
    lemma_base64_symbol_value(((b0 & 0x03) << 4) | (b1 >> 4));
    lemma_base64_symbol_value(((b1 & 0x0f) << 2) | (b2 >> 6));
    lemma_base64_symbol_value(b2 & 0x3f);
}

/// Reading the base64 text of bytes gives the bytes back.
pub proof fn lemma_base64_round_trip(bytes: Seq<u8>)
    ensures
        is_base64(base64_text(bytes)),
        base64_bytes(base64_text(bytes)) == bytes,
{
    let text = base64_text(bytes);
    lemma_base64_text_payload(bytes);
    assert forall|k: int| 0 <= k < bytes.len() implies base64_byte_at(text, k) == bytes[k] by {
        let i = k + k / 3 + 1;
        let group = i / 4;
        assert(group == k / 3);
        let b0 = byte_or_zero(bytes, 3 * group);
        let b1 = byte_or_zero(bytes, 3 * group + 1);
        let b2 = byte_or_zero(bytes, 3 * group + 2);
        let s0 = b0 >> 2;
        let s1 = ((b0 & 0x03) << 4) | (b1 >> 4);
        let s2 = ((b1 & 0x0f) << 2) | (b2 >> 6);
        let s3 = b2 & 0x3f;
        assert(s0 < 64 && s1 < 64 && s2 < 64 && s3 < 64 && (s0 << 2) | (s1 >> 4) == b0 && (s1
            << 4) | (s2 >> 2) == b1 && (s2 << 6) | s3 == b2) by (bit_vector)
            requires
                s0 == b0 >> 2,
                s1 == ((b0 & 0x03) << 4) | (b1 >> 4),
                s2 == ((b1 & 0x0f) << 2) | (b2 >> 6),
                s3 == b2 & 0x3f,
        ;
        lemma_base64_symbol_value(s0);
        lemma_base64_symbol_value(s1);
        lemma_base64_symbol_value(s2);
        lemma_base64_symbol_value(s3);
        assert(text[i - 1] == base64_char_at(bytes, i - 1));
        assert(text[i] == base64_char_at(bytes, i));
        assert((i - 1) / 4 == group);
    }
    assert(base64_bytes(text) =~= bytes);
}

/// Where the first `n` characters are no padding, the padding starts at `n`
/// or behind it.
pub proof fn lemma_payload_len_at_least(text: Seq<char>, n: int)
    requires
        0 <= n <= text.len(),
        forall|i: int| 0 <= i < n ==> text[i] != '=',
    ensures
        payload_len(text) >= n,
    decreases n,
{
    if n > 0 {
        let rest = text.drop_first();
        assert forall|i: int| 0 <= i < n - 1 implies rest[i] != '=' by {
            assert(rest[i] == text[i + 1]);
        }
        lemma_payload_len_at_least(rest, n - 1);
    }
}

/// The padding starts at `n` where the first `n` characters are no padding
/// and the text ends there or goes on with `=`.
pub proof fn lemma_payload_len_is(text: Seq<char>, n: int)
    requires
        0 <= n <= text.len(),
        forall|i: int| 0 <= i < n ==> text[i] != '=',
        n == text.len() || text[n] == '=',
    ensures
        payload_len(text) == n,
    decreases n,
{
    if n > 0 {
        let rest = text.drop_first();
        assert forall|i: int| 0 <= i < n - 1 implies rest[i] != '=' by {
            assert(rest[i] == text[i + 1]);
        }
        if n < text.len() {
            assert(rest[n - 1] == text[n]);
        }
        lemma_payload_len_is(rest, n - 1);
    }
}

fn base64_digit(v: u8) -> (c: char)
    requires
        v < 64,
    ensures
        c == base64_symbol(v),
{
    if v < 26 {
        (0x41 + v) as char
    } else if v < 52 {
        (0x47 + v) as char
    } else if v < 62 {
        (v - 4) as char
    } else if v == 62 {
        '+'
    } else {
        '/'
    }
}

fn base64_digit_value(c: char) -> (v: Option<u8>)
    ensures
        v == base64_value(c),
        v matches Some(n) ==> n < 64,
{
    if 'A' <= c && c <= 'Z' {
        Some(c as u8 - 0x41)
    } else if 'a' <= c && c <= 'z' {
        Some(c as u8 - 0x47)
    } else if '0' <= c && c <= '9' {
        Some(c as u8 + 4)
    } else if c == '+' {
        Some(62)
    } else if c == '/' {
        Some(63)
    } else {
        None
    }
}

/// Writes bytes as base64, with padding.
pub fn base64_encode(bytes: &[u8]) -> (text: String)
    ensures
        text@ == base64_text(bytes@),
{
    let mut text = String::new();
    let mut remaining: u8 = 0;
    let mut i: usize = 0;
    while i < bytes.len()
        invariant
            i <= bytes.len(),
            text@.len() == 4 * (i / 3) + i % 3,
            forall|p: int| 0 <= p < text@.len() ==> text@[p] == base64_char_at(bytes@, p),
            i % 3 == 0 ==> remaining == 0,
            i % 3 == 1 ==> remaining == (bytes@[i - 1] & 0x03) << 4,
            i % 3 == 2 ==> remaining == (bytes@[i - 1] & 0x0f) << 2,
        decreases bytes.len() - i,
    {
        let b = bytes[i];
        let ghost before = text@;
        if i % 3 == 0 {
            let symbol: u8 = b >> 2;
            assert(symbol < 64) by (bit_vector)
                requires
                    symbol == b >> 2,
            ;
            text.push(base64_digit(symbol));
            remaining = (b & 0x03) << 4;
        } else if i % 3 == 1 {
            let symbol: u8 = remaining | (b >> 4);
            let ghost previous = bytes@[i - 1];
            assert(symbol < 64) by (bit_vector)
                requires
                    symbol == ((previous & 0x03) << 4) | (b >> 4),
            ;
            text.push(base64_digit(symbol));
            remaining = (b & 0x0f) << 2;
        } else {
            let symbol: u8 = remaining | (b >> 6);
            let last: u8 = b & 0x3f;
            let ghost previous = bytes@[i - 1];
            assert(symbol < 64 && last < 64) by (bit_vector)
                requires
                    symbol == ((previous & 0x0f) << 2) | (b >> 6),
                    last == b & 0x3f,
            ;
            text.push(base64_digit(symbol));
            text.push(base64_digit(last));
            remaining = 0;
        }
        assert(forall|p: int| 0 <= p < before.len() ==> text@[p] == before[p]);
        i = i + 1;
    }
    let ghost before = text@;
    if i % 3 == 2 {
        let ghost previous = bytes@[i - 1];
        assert(remaining < 64 && remaining == ((previous & 0x0f) << 2) | (0u8 >> 6)) by (bit_vector)
            requires
                remaining == (previous & 0x0f) << 2,
        ;
        text.push(base64_digit(remaining));
        text.push('=');
    } else if i % 3 == 1 {
        let ghost previous = bytes@[i - 1];
        assert(remaining < 64 && remaining == ((previous & 0x03) << 4) | (0u8 >> 4)) by (bit_vector)
            requires
                remaining == (previous & 0x03) << 4,
        ;
        text.push(base64_digit(remaining));
        text.push('=');
        text.push('=');
    }
    assert(forall|p: int| 0 <= p < before.len() ==> text@[p] == before[p]);
    assert(text@ =~= base64_text(bytes@));
    text
}

/// Tells whether every character of `text` before the first `=` is a base64
/// symbol.
pub fn is_base64_text(text: &str) -> (yes: bool)
    ensures
        yes == is_base64(text@),
{
    let mut yes = true;
    let mut chars = text.chars();
    let ghost mut n: int = 0;
    loop
        invariant_except_break
            0 <= n <= text@.len(),
            chars.remaining() == text@.skip(n),
            forall|i: int| 0 <= i < n ==> text@[i] != '=',
            yes == (forall|i: int| 0 <= i < n ==> base64_value(#[trigger] text@[i]) is Some),
        ensures
            yes == is_base64(text@),
        decreases text@.len() - n,
    {
        match chars.next() {
            None => {
                proof {
                    lemma_payload_len_is(text@, n);
                }
                break ;
            },
            Some(c) => {
                assert(c == text@[n]);
                if c == '=' {
                    proof {
                        lemma_payload_len_is(text@, n);
                    }
                    break ;
                }
                if base64_digit_value(c).is_none() {
                    proof {
                        lemma_payload_len_at_least(text@, n + 1);
                    }
                    yes = false;
                    break ;
                }
                proof {
                    assert(text@.skip(n).drop_first() =~= text@.skip(n + 1));
                    n = n + 1;
                }
            },
        }
    }
    yes
}

/// Reads base64 back into bytes, up to the first `=`.
pub fn base64_decode(b64: &String) -> (bytes: Vec<u8>)
    requires
        is_base64(b64@),
    ensures
        bytes@ == base64_bytes(b64@),
{
    let mut bytes: Vec<u8> = Vec::new();
    let mut accumulator: u8 = 0;
    let mut place: u8 = 0;
    let mut chars = b64.as_str().chars();
    let ghost mut n: int = 0;
    loop
        invariant_except_break
            is_base64(b64@),
            0 <= n <= b64@.len(),
            chars.remaining() == b64@.skip(n),
            forall|i: int| 0 <= i < n ==> b64@[i] != '=',
            place == n % 4,
            bytes@.len() == n - (n + 3) / 4,
            forall|k: int| 0 <= k < bytes@.len() ==> bytes@[k] == base64_byte_at(b64@, k),
            place == 1 ==> accumulator == base64_value(b64@[n - 1])->0 << 2,
            place == 2 ==> accumulator == base64_value(b64@[n - 1])->0 << 4,
            place == 3 ==> accumulator == base64_value(b64@[n - 1])->0 << 6,
        ensures
            bytes@ == base64_bytes(b64@),
        decreases b64@.len() - n,
    {
        match chars.next() {
            None => {
                proof {
                    lemma_payload_len_is(b64@, n);
                    assert(bytes@ =~= base64_bytes(b64@));
                }
                break ;
            },
            Some(c) => {
                assert(c == b64@[n]);
                if c == '=' {
                    proof {
                        lemma_payload_len_is(b64@, n);
                        assert(bytes@ =~= base64_bytes(b64@));
                    }
                    break ;
                }
                proof {
                    lemma_payload_len_at_least(b64@, n + 1);
                }
                let value = match base64_digit_value(c) {
                    Some(v) => v,
                    None => 0,
                };
                let ghost before = bytes@;
                if place == 0 {
                    accumulator = value << 2;
                    place = 1;
                } else if place == 1 {
                    bytes.push(accumulator | (value >> 4));
                    accumulator = value << 4;
                    place = 2;
                } else if place == 2 {
                    bytes.push(accumulator | (value >> 2));
                    accumulator = value << 6;
                    place = 3;
                } else {
                    bytes.push(accumulator | value);
                    accumulator = 0;
                    place = 0;
                }
                proof {
                    assert(forall|k: int| 0 <= k < before.len() ==> bytes@[k] == before[k]);
                    assert(b64@.skip(n).drop_first() =~= b64@.skip(n + 1));
                    n = n + 1;
                }
            },
        }
    }
    bytes
}

} // verus!
