//! Choosing a criterion by its name: `printable`, `text`, or `byte(N)` for
//! the share of the byte with the decimal value `N`.

use vstd::prelude::*;
use vstd::std_specs::iter::IteratorSpec;
use crate::criteria::Criterion;

verus! {

/// What group 1 of the first match of the regular expression `pattern` in
/// `text` holds; `None` where the pattern does not compile, where it matches
/// nowhere, and where the match leaves group 1 out.
pub uninterp spec fn first_capture(pattern: Seq<char>, text: Seq<char>) -> Option<Seq<char>>;

/// Compiles `pattern` with `regex::Regex::new`, searches `text` with
/// `Regex::captures` and copies what `Captures::get(1)` matched. Nothing is
/// claimed of the search but that its outcome depends on the pattern and the
/// text alone.
#[verifier::external_body]
fn capture_first_group(pattern: &str, text: &str) -> (found: Option<String>)
    ensures
        found matches Some(group) ==> first_capture(pattern@, text@) == Some(group@),
        found is None ==> first_capture(pattern@, text@) is None,
{
    match regex::Regex::new(pattern) {
        Ok(expression) => match expression.captures(text) {
            Some(found) => match found.get(1) {
                Some(group) => Some(String::from(group.as_str())),
                None => None,
            },
            None => None,
        },
        Err(_) => None,
    }
}

/// The value of an ASCII decimal digit, and `None` for any other character.
pub open spec fn digit_value(c: char) -> Option<nat> {
    if '0' <= c <= '9' {
        Some((c as nat - 0x30) as nat)
    } else {
        None
    }
}

/// Every character is an ASCII decimal digit.
pub open spec fn is_decimal(digits: Seq<char>) -> bool {
    forall|i: int| 0 <= i < digits.len() ==> digit_value(#[trigger] digits[i]) is Some
}

/// The number that decimal digits write.
pub open spec fn decimal_number(digits: Seq<char>) -> nat
    decreases digits.len(),
{
    if digits.len() == 0 {
        0
    } else {
        10 * decimal_number(digits.drop_last()) + digit_value(digits.last())->0
    }
}

/// The byte that `digits` write: they are one ASCII decimal digit at least
/// and no others, and their number is 255 at most.
pub open spec fn decimal_byte(digits: Seq<char>) -> Option<u8> {
    if digits.len() > 0 && is_decimal(digits) && decimal_number(digits) <= 255 {
        Some(decimal_number(digits) as u8)
    } else {
        None
    }
}

/// The pattern of a criterion that names its byte: `byte(`, one to three
/// digits, `)`.
pub open spec fn byte_pattern() -> Seq<char> {
    "byte\\((\\d{1,3})\\)"@
}

/// The criterion that `name` stands for, where `capture` is what the pattern
/// of a named byte has found in it.
pub open spec fn named_criterion(name: Seq<char>, capture: Option<Seq<char>>) -> Option<
    Criterion,
> {
    if name == "printable"@ {
        Some(Criterion::PrintableBytes)
    } else if name == "text"@ {
        Some(Criterion::TextBytes)
    } else {
        match capture {
            Some(digits) => match decimal_byte(digits) {
                Some(byte) => Some(Criterion::CommonByte(byte)),
                None => None,
            },
            None => None,
        }
    }
}

/// The number of the first `n` digits is no greater than that of all.
proof fn lemma_decimal_number_grows(digits: Seq<char>, n: int)
    requires
        0 <= n <= digits.len(),
        is_decimal(digits),
    ensures
        decimal_number(digits.take(n)) <= decimal_number(digits),
    decreases digits.len() - n,
{
    if n < digits.len() {
        lemma_decimal_number_grows(digits, n + 1);
        assert(digits.take(n + 1).drop_last() =~= digits.take(n));
    } else {
        assert(digits.take(n) =~= digits);
    }
}

/// Reads a byte written in ASCII decimal digits.
pub fn parse_byte(digits: &str) -> (byte: Option<u8>)
    ensures
        byte == decimal_byte(digits@),
{
    let mut number: u16 = 0;
    let mut seen = false;
    let mut chars = digits.chars();
    let ghost mut n: int = 0;
    assert(digits@.take(0) =~= Seq::<char>::empty());
    loop
        invariant_except_break
            0 <= n <= digits@.len(),
            chars.remaining() == digits@.skip(n),
            is_decimal(digits@.take(n)),
            number == decimal_number(digits@.take(n)),
            number <= 255,
            seen == (n > 0),
        ensures
            n == digits@.len(),
            is_decimal(digits@),
            number == decimal_number(digits@),
            number <= 255,
            seen == (n > 0),
        decreases digits@.len() - n,
    {
        match chars.next() {
            None => {
                assert(digits@.take(n) =~= digits@);
                break ;
            },
            Some(c) => {
                assert(c == digits@[n]);
                let ghost seen_digits = digits@.take(n);
                let ghost next_digits = digits@.take(n + 1);
                proof {
                    assert(next_digits.drop_last() =~= seen_digits);
                    assert(next_digits.last() == c);
                }
                if !('0' <= c && c <= '9') {
                    assert(digit_value(digits@[n]) is None);
                    return None;
                }
                let value: u16 = (c as u8 - 0x30) as u16;
                number = 10 * number + value;
                proof {
                    assert forall|i: int| 0 <= i < next_digits.len() implies digit_value(
                        #[trigger] next_digits[i],
                    ) is Some by {
                        if i < n {
                            assert(next_digits[i] == seen_digits[i]);
                        }
                    }
                }
                if number > 255 {
                    proof {
                        if is_decimal(digits@) {
                            lemma_decimal_number_grows(digits@, n + 1);
                        }
                    }
                    return None;
                }
                proof {
                    assert(digits@.skip(n).drop_first() =~= digits@.skip(n + 1));
                    n = n + 1;
                }
                seen = true;
            },
        }
    }
    if seen {
        Some(number as u8)
    } else {
        None
    }
}

/// The criterion that `name` stands for, given what the pattern of a named
/// byte has found in it: `printable` and `text` by their names, any other
/// name by the byte that the found digits write, and none where there is no
/// such byte.
pub fn criterion_from_capture(name: &str, capture: Option<&str>) -> (chosen: Option<Criterion>)
    ensures
        chosen == named_criterion(
            name@,
            match capture {
                Some(digits) => Some(digits@),
                None => None,
            },
        ),
{
    let name = name.to_owned();
    if name == "printable".to_owned() {
        Some(Criterion::PrintableBytes)
    } else if name == "text".to_owned() {
        Some(Criterion::TextBytes)
    } else {
        match capture {
            Some(digits) => match parse_byte(digits) {
                Some(byte) => Some(Criterion::CommonByte(byte)),
                None => None,
            },
            None => None,
        }
    }
}

/// The criterion that `name` stands for: `printable`, `text`, or a name that
/// holds `byte(N)` with a byte `N` in one to three digits.
pub fn criterion_named(name: &str) -> (chosen: Option<Criterion>)
    ensures
        chosen == named_criterion(name@, first_capture(byte_pattern(), name@)),
{
    let found = capture_first_group("byte\\((\\d{1,3})\\)", name);
    match found {
        Some(digits) => criterion_from_capture(name, Some(digits.as_str())),
        None => criterion_from_capture(name, None),
    }
}

} // verus!
