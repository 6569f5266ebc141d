//! Text: what the standard library makes of UTF-16 and UTF-8 data.

use vstd::prelude::*;
use vstd::utf8::{decode_utf8, valid_utf8};

verus! {

/// The first half of a surrogate pair.
pub open spec fn is_high_surrogate(unit: u16) -> bool {
    0xD800 <= unit <= 0xDBFF
}

/// The second half of a surrogate pair.
pub open spec fn is_low_surrogate(unit: u16) -> bool {
    0xDC00 <= unit <= 0xDFFF
}

/// The text of UTF-16 units: surrogate pairs are one character, and half a pair
/// is replaced by U+FFFD.
pub open spec fn utf16_text(units: Seq<u16>) -> Seq<char>
    decreases units.len(),
{
    if units.len() == 0 {
        Seq::empty()
    } else if units.len() > 1 && is_high_surrogate(units[0]) && is_low_surrogate(units[1]) {
        seq![(0x10000 + (units[0] - 0xD800) * 0x400 + (units[1] - 0xDC00)) as char] + utf16_text(
            units.skip(2),
        )
    } else if is_high_surrogate(units[0]) || is_low_surrogate(units[0]) {
        seq!['\u{FFFD}'] + utf16_text(units.skip(1))
    } else {
        seq![units[0] as char] + utf16_text(units.skip(1))
    }
}

/// `String::from_utf16_lossy`: the characters that the units stand for, with
/// U+FFFD in place of every unpaired surrogate.
#[verifier::external_body]
pub(crate) fn from_utf16(units: &[u16]) -> (text: String)
    ensures
        text@ == utf16_text(units@),
{
    String::from_utf16_lossy(units)
}

/// The text that `String::from_utf8_lossy` makes of bytes.
pub uninterp spec fn utf8_text(bytes: Seq<u8>) -> Seq<char>;

/// `String::from_utf8_lossy`: a text that depends on the bytes alone, and is the
/// text that they encode where they are valid UTF-8. What stands in place of
/// invalid bytes is not said.
#[verifier::external_body]
pub(crate) fn from_utf8(bytes: &[u8]) -> (text: String)
    ensures
        text@ == utf8_text(bytes@),
        valid_utf8(bytes@) ==> text@ == decode_utf8(bytes@),
{
    String::from_utf8_lossy(bytes).into_owned()
}

/// The character in lower case, where it is an ASCII letter.
pub open spec fn ascii_lower(c: char) -> char {
    if 'A' <= c <= 'Z' {
        ((c as u8) + 32) as char
    } else {
        c
    }
}

/// The characters that `char::to_lowercase` makes of a character.
pub uninterp spec fn lower_char(c: char) -> Seq<char>;

/// `char::to_lowercase`: characters that depend on the given one alone, whatever
/// stands beside it. An ASCII letter is lowered, another ASCII character stays.
/// What becomes of other characters is Unicode's, and is not said.
#[verifier::external_body]
pub(crate) fn to_lower_char(c: char) -> (lower: String)
    ensures
        lower@ == lower_char(c),
        c as u32 <= 127 ==> lower@ == seq![ascii_lower(c)],
{
    c.to_lowercase().to_string()
}

/// The text in lower case, character by character.
pub open spec fn lower_case(text: Seq<char>) -> Seq<char>
    decreases text.len(),
{
    if text.len() == 0 {
        Seq::empty()
    } else {
        lower_case(text.drop_last()) + lower_char(text.last())
    }
}

/// No character of the text lies outside ASCII.
pub open spec fn is_ascii(text: Seq<char>) -> bool {
    forall|k: int| 0 <= k < text.len() ==> (#[trigger] text[k]) as u32 <= 127
}

/// `String::push` puts one character behind the text.
pub assume_specification[ String::push ](text: &mut String, ch: char)
    ensures
        final(text)@ == old(text)@.push(ch),
;

/// The decimal digit of `d`.
pub open spec fn digit(d: nat) -> char {
    (48 + d) as char
}

/// The decimal digits of `n`.
pub open spec fn decimal(n: nat) -> Seq<char>
    decreases n,
{
    if n < 10 {
        seq![digit(n)]
    } else {
        decimal(n / 10).push(digit(n % 10))
    }
}

/// Put the decimal digits of `n` behind the text.
pub fn push_decimal(text: &mut String, n: u64)
    ensures
        final(text)@ == old(text)@ + decimal(n as nat),
    decreases n,
{
    let ghost before = text@;
    if n >= 10 {
        push_decimal(text, n / 10);
    }
    let d: u8 = (n % 10) as u8;
    let ch: char = (48 + d) as char;
    text.push(ch);
    assert(text@ =~= before + decimal(n as nat));
}

/// The digit that a character stands for.
pub open spec fn digit_value(c: char) -> int {
    c as int - 48
}

/// The number that decimal digits stand for.
pub open spec fn decimal_value(digits: Seq<char>) -> int
    decreases digits.len(),
{
    if digits.len() == 0 {
        0
    } else {
        10 * decimal_value(digits.drop_last()) + digit_value(digits.last())
    }
}

/// Decimal digits give back the number that they were made of. They are digits,
/// there is at least one, and the first is zero for zero alone.
pub proof fn law_decimal_reads_back(n: nat)
    ensures
        decimal_value(decimal(n)) == n,
        decimal(n).len() > 0,
        forall|k: int| 0 <= k < decimal(n).len() ==> '0' <= #[trigger] decimal(n)[k] <= '9',
        decimal(n)[0] == '0' <==> n == 0,
    decreases n,
{
    let digits = decimal(n);
    if n < 10 {
        assert(digits.drop_last() =~= Seq::empty());
        assert(decimal_value(Seq::empty()) == 0);
        assert(digits.last() == digit(n));
    } else {
        law_decimal_reads_back(n / 10);
        let front = decimal(n / 10);
        assert(digits.drop_last() =~= front);
        assert(digits.last() == digit(n % 10));
        assert(digits[0] == front[0]);
        assert forall|k: int| 0 <= k < digits.len() implies '0' <= #[trigger] digits[k]
            <= '9' by {
            if k < front.len() {
                assert(digits[k] == front[k]);
            }
        }
    }
}

/// Lower case changes nothing but the capital letters of ASCII, and each of those
/// to the small letter.
pub proof fn law_ascii_letters_are_lowered(c: char)
    ensures
        !('A' <= c <= 'Z') ==> ascii_lower(c) == c,
        'A' <= c <= 'Z' ==> 'a' <= ascii_lower(c) <= 'z' && ascii_lower(c) as int - 'a' as int
            == c as int - 'A' as int,
        ascii_lower(ascii_lower(c)) == ascii_lower(c),
{
}

} // verus!
