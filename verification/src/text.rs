use vstd::prelude::*;
use vstd::utf8::*;

verus! {

/// `String::from_utf8`: the documentation promises `Ok` exactly for valid
/// UTF-8 input, and that the resulting string holds those bytes, i.e. its
/// characters are the UTF-8 decoding of the input.
#[verifier::external_body]
pub(crate) fn string_from_utf8(bytes: Vec<u8>) -> (res: Option<String>)
    ensures
        res is Some <==> valid_utf8(bytes@),
        res matches Some(s) ==> s@ == decode_utf8(bytes@),
{
    String::from_utf8(bytes).ok()
}

/// Every byte is an ASCII code.
pub open spec fn all_ascii(bytes: Seq<u8>) -> bool {
    forall|i: int| 0 <= i < bytes.len() ==> #[trigger] bytes[i] < 128
}

/// The characters named by a sequence of ASCII codes.
pub open spec fn ascii_chars(bytes: Seq<u8>) -> Seq<char> {
    bytes.map_values(|b: u8| b as char)
}

/// ASCII bytes are valid UTF-8 and decode to the characters they name.
pub proof fn lemma_ascii_decode(bytes: Seq<u8>)
    requires
        all_ascii(bytes),
    ensures
        valid_utf8(bytes),
        decode_utf8(bytes) == ascii_chars(bytes),
{
    let chars = ascii_chars(bytes);
    assert(is_ascii_chars(chars));
    is_ascii_chars_encode_utf8(chars);
    assert(encode_utf8(chars) =~= bytes);
    encode_utf8_valid_utf8(chars);
    encode_utf8_decode_utf8(chars);
}

/// Turns ASCII codes into a `String`.
pub(crate) fn ascii_string(bytes: Vec<u8>) -> (s: String)
    requires
        all_ascii(bytes@),
    ensures
        s@ == ascii_chars(bytes@),
{
    proof {
        lemma_ascii_decode(bytes@);
    }
    let r = string_from_utf8(bytes);
    match r {
        Some(s) => s,
        None => {
            proof {
                assert(false);
            }
            String::new()
        },
    }
}

/// The ASCII code of an uppercase hexadecimal digit.
pub open spec fn hex_digit(n: int) -> u8 {
    if n < 10 {
        (48 + n) as u8
    } else {
        (55 + n) as u8
    }
}

/// Two uppercase hexadecimal digits of a byte, as `{:02X}` writes them.
pub open spec fn hex_byte(b: u8) -> Seq<u8> {
    seq![hex_digit(b as int / 16), hex_digit(b as int % 16)]
}

/// Decimal digits of a byte without leading zeros, as `{}` writes them.
pub open spec fn decimal_byte(b: u8) -> Seq<u8> {
    if b >= 100 {
        seq![(48 + b / 100) as u8, (48 + (b / 10) % 10) as u8, (48 + b % 10) as u8]
    } else if b >= 10 {
        seq![(48 + b / 10) as u8, (48 + b % 10) as u8]
    } else {
        seq![(48 + b) as u8]
    }
}

/// Appends the hexadecimal digits of `b`.
pub(crate) fn push_hex_byte(out: &mut Vec<u8>, b: u8)
    ensures
        final(out)@ == old(out)@ + hex_byte(b),
{
    let hi = b / 16;
    let lo = b % 16;
    let d1: u8 = if hi < 10 { 48 + hi } else { 55 + hi };
    let d2: u8 = if lo < 10 { 48 + lo } else { 55 + lo };
    out.push(d1);
    out.push(d2);
    proof {
        assert(out@ =~= old(out)@ + hex_byte(b));
    }
}

/// Appends the decimal digits of `b`.
pub(crate) fn push_decimal_byte(out: &mut Vec<u8>, b: u8)
    ensures
        final(out)@ == old(out)@ + decimal_byte(b),
{
    if b >= 100 {
        out.push(48 + b / 100);
        out.push(48 + (b / 10) % 10);
        out.push(48 + b % 10);
    } else if b >= 10 {
        out.push(48 + b / 10);
        out.push(48 + b % 10);
    } else {
        out.push(48 + b);
    }
    proof {
        assert(out@ =~= old(out)@ + decimal_byte(b));
    }
}

} // verus!

verus! {

/// The value of an uppercase hexadecimal digit character, or -1.
pub open spec fn hex_char_value(c: char) -> int {
    if '0' <= c <= '9' {
        c as int - '0' as int
    } else if 'A' <= c <= 'F' {
        c as int - 'A' as int + 10
    } else {
        -1
    }
}

/// The value of the two hexadecimal digits at `i` and `i + 1`.
pub open spec fn hex_pair_value(t: Seq<char>, i: int) -> int {
    hex_char_value(t[i]) * 16 + hex_char_value(t[i + 1])
}

/// The value of a decimal digit character, or -1.
pub open spec fn decimal_char_value(c: char) -> int {
    if '0' <= c <= '9' {
        c as int - '0' as int
    } else {
        -1
    }
}

/// Whether every character is a decimal digit.
pub open spec fn all_decimal_digits(t: Seq<char>) -> bool {
    forall|i: int| 0 <= i < t.len() ==> '0' <= #[trigger] t[i] <= '9'
}

/// The number that a string of decimal digits spells, most significant
/// digit first.
pub open spec fn decimal_value(t: Seq<char>) -> int
    decreases t.len(),
{
    if t.len() == 0 {
        0
    } else {
        decimal_value(t.drop_last()) * 10 + decimal_char_value(t.last())
    }
}

/// The two hexadecimal digits of a byte are uppercase digits that read back
/// as the byte, most significant nibble first.
pub proof fn lemma_hex_byte_reads_back(b: u8)
    ensures
        ascii_chars(hex_byte(b)).len() == 2,
        0 <= hex_char_value(ascii_chars(hex_byte(b))[0]) < 16,
        0 <= hex_char_value(ascii_chars(hex_byte(b))[1]) < 16,
        hex_pair_value(ascii_chars(hex_byte(b)), 0) == b,
{
    let t = ascii_chars(hex_byte(b));
    assert(t[0] == hex_byte(b)[0] as char);
    assert(t[1] == hex_byte(b)[1] as char);
}

/// The decimal text of a byte is a string of digits without a leading zero
/// that reads back as the byte.
pub proof fn lemma_decimal_byte_reads_back(b: u8)
    ensures
        all_decimal_digits(ascii_chars(decimal_byte(b))),
        1 <= ascii_chars(decimal_byte(b)).len() <= 3,
        decimal_value(ascii_chars(decimal_byte(b))) == b,
        ascii_chars(decimal_byte(b))[0] == '0' ==> b == 0,
{
    let t = ascii_chars(decimal_byte(b));
    let s = decimal_byte(b);
    assert forall|i: int| 0 <= i < t.len() implies '0' <= #[trigger] t[i] <= '9' by {
        assert(t[i] == s[i] as char);
    }
    if t.len() == 3 {
        assert(t.drop_last().drop_last().drop_last().len() == 0);
    } else if t.len() == 2 {
        assert(t.drop_last().drop_last().len() == 0);
    } else {
        assert(t.drop_last().len() == 0);
    }
    reveal_with_fuel(decimal_value, 4);
}

} // verus!
