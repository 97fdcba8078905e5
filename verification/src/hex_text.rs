//! Lowercase hexadecimal text: the alphabet that keys are written in and the
//! encoding that makes a mapped key unique.

use vstd::prelude::*;

verus! {

/// ASCII code of `0`.
pub const DIGIT_ZERO: u8 = 0x30;

/// ASCII code of `a`.
pub const LETTER_A: u8 = 0x61;

/// The ASCII code of the lowercase hexadecimal digit that stands for `value`.
pub open spec fn hex_digit(value: int) -> u8 {
    if value < 10 {
        (0x30 + value) as u8
    } else {
        (0x61 + value - 10) as u8
    }
}

/// The sixteen hexadecimal digits `0123456789abcdef`, in ascending order.
pub open spec fn hex_alphabet() -> Seq<u8> {
    Seq::new(16, |i: int| hex_digit(i))
}

/// The hexadecimal text of `bytes`: two digits per byte, high nibble first.
pub open spec fn hex_text(bytes: Seq<u8>) -> Seq<u8> {
    Seq::new(
        2 * bytes.len(),
        |i: int|
            if i % 2 == 0 {
                hex_digit(bytes[i / 2] as int / 16)
            } else {
                hex_digit(bytes[i / 2] as int % 16)
            },
    )
}

/// Whether `b` is one of the sixteen lowercase hexadecimal digits.
pub open spec fn is_hex_digit(b: u8) -> bool {
    (0x30 <= b <= 0x39) || (0x61 <= b <= 0x66)
}

/// The digit for a value below sixteen.
pub(crate) fn hex_symbol(value: u8) -> (symbol: u8)
    requires
        value < 16,
    ensures
        symbol == hex_digit(value as int),
        is_hex_digit(symbol),
{
    if value < 10 {
        DIGIT_ZERO + value
    } else {
        LETTER_A + (value - 10)
    }
}

/// The hexadecimal alphabet as bytes.
pub fn hex_symbols() -> (symbols: Vec<u8>)
    ensures
        symbols@ == hex_alphabet(),
{
    let mut symbols: Vec<u8> = Vec::new();
    let mut value: u8 = 0;
    while value < 16
        invariant
            value <= 16,
            symbols@.len() == value,
            forall|i: int| 0 <= i < value ==> symbols@[i] == hex_digit(i),
        decreases 16 - value,
    {
        symbols.push(hex_symbol(value));
        value += 1;
    }
    symbols
}

/// Calls `hex::encode` and hands its text back as bytes. The contract claims
/// what that function documents: every input byte becomes two lowercase
/// hexadecimal digits, the high nibble first, in input order.
#[verifier::external_body]
pub(crate) fn hex_encode(bytes: &[u8]) -> (text: Vec<u8>)
    ensures
        text@ == hex_text(bytes@),
{
    hex::encode(bytes).into_bytes()
}

/// Hexadecimal text holds hexadecimal digits only.
pub proof fn lemma_hex_text_digits(bytes: Seq<u8>)
    ensures
        hex_text(bytes).len() == 2 * bytes.len(),
        forall|i: int|
            0 <= i < hex_text(bytes).len() ==> is_hex_digit(#[trigger] hex_text(bytes)[i]),
{
}

/// Hexadecimal text tells byte strings apart.
pub proof fn lemma_hex_text_injective(a: Seq<u8>, b: Seq<u8>)
    requires
        hex_text(a) == hex_text(b),
    ensures
        a == b,
{
    assert(hex_text(a).len() == 2 * a.len());
    assert forall|x: int| 0 <= x < a.len() implies a[x] == b[x] by {
        lemma_digits_of_byte(a, x);
    }
}

proof fn lemma_digits_of_byte(bytes: Seq<u8>, x: int)
    requires
        0 <= x < bytes.len(),
    ensures
        hex_text(bytes)[2 * x] == hex_digit(bytes[x] as int / 16),
        hex_text(bytes)[2 * x + 1] == hex_digit(bytes[x] as int % 16),
{
}

/// The digits sort as the values they stand for.
pub proof fn lemma_hex_digit_order(a: int, b: int)
    requires
        0 <= a < 16,
        0 <= b < 16,
    ensures
        hex_digit(a) < hex_digit(b) <==> a < b,
        hex_digit(a) == hex_digit(b) <==> a == b,
{
}

/// Hexadecimal text sorts as the byte strings it is the text of.
pub proof fn lemma_hex_text_order(a: Seq<u8>, b: Seq<u8>)
    requires
        crate::keys::lex_lt(hex_text(a), hex_text(b)),
    ensures
        crate::keys::lex_lt(a, b),
{
    let (ha, hb) = (hex_text(a), hex_text(b));
    let i = choose|i: int| crate::keys::decides_less_at(ha, hb, i);
    let q = i / 2;
    assert forall|x: int| 0 <= x < q implies a[x] == b[x] by {
        lemma_digits_of_byte(a, x);
    }
    if i == ha.len() {
        assert(crate::keys::decides_less_at(a, b, q));
    } else {
        lemma_digits_of_byte(a, q);
        assert(crate::keys::decides_less_at(a, b, q));
    }
}

} // verus!
