//! Hexadecimal strings: the prefixes that partition a store of hexadecimal
//! keys, and random strings to fill such a store with.

use crate::error::JobError;
use crate::hex_text::{hex_alphabet, hex_digit, hex_symbol, hex_symbols, is_hex_digit};
use crate::partition::{
    count_prefixes, lemma_prefix_shape, nth_prefix, prefix_at, prefix_count, valid_width,
};
use rand::rngs::ThreadRng;
use rand::RngExt;
use vstd::pervasive::unreached;
use vstd::prelude::*;
use vstd::string::StringExecFns;

verus! {

/// The characters that the bytes of a piece of ASCII text stand for.
pub open spec fn as_chars(bytes: Seq<u8>) -> Seq<char> {
    Seq::new(bytes.len(), |i: int| bytes[i] as char)
}

/// Whether `c` is one of the characters `0` to `9` and `a` to `f`.
pub open spec fn is_hex_char(c: char) -> bool {
    ('0' <= c && c <= '9') || ('a' <= c && c <= 'f')
}

/// The `index`-th string of `width` hexadecimal digits: the lowercase
/// hexadecimal numeral of `index`, padded with zeros to the width.
pub open spec fn hex_string(width: nat, index: int) -> Seq<char> {
    as_chars(prefix_at(hex_alphabet(), width, index))
}

/// The one-character text of a hexadecimal digit.
fn digit_text(symbol: u8) -> (text: &'static str)
    requires
        is_hex_digit(symbol),
    ensures
        text@ == seq![symbol as char],
{
    proof {
        reveal_strlit("0");
        reveal_strlit("1");
        reveal_strlit("2");
        reveal_strlit("3");
        reveal_strlit("4");
        reveal_strlit("5");
        reveal_strlit("6");
        reveal_strlit("7");
        reveal_strlit("8");
        reveal_strlit("9");
        reveal_strlit("a");
        reveal_strlit("b");
        reveal_strlit("c");
        reveal_strlit("d");
        reveal_strlit("e");
        reveal_strlit("f");
    }
    let text = match symbol {
        0x30 => "0",
        0x31 => "1",
        0x32 => "2",
        0x33 => "3",
        0x34 => "4",
        0x35 => "5",
        0x36 => "6",
        0x37 => "7",
        0x38 => "8",
        0x39 => "9",
        0x61 => "a",
        0x62 => "b",
        0x63 => "c",
        0x64 => "d",
        0x65 => "e",
        _ => "f",
    };
    text
}

/// Writes hexadecimal digits out as a string.
fn digits_to_string(digits: &[u8]) -> (text: String)
    requires
        forall|i: int| 0 <= i < digits@.len() ==> is_hex_digit(#[trigger] digits@[i]),
    ensures
        text@ == as_chars(digits@),
{
    let mut text = String::new();
    let mut i: usize = 0;
    while i < digits.len()
        invariant
            i <= digits@.len(),
            forall|j: int| 0 <= j < digits@.len() ==> is_hex_digit(#[trigger] digits@[j]),
            text@ == as_chars(digits@.take(i as int)),
        decreases digits@.len() - i,
    {
        text.append(digit_text(digits[i]));
        i += 1;
    }
    text
}

/// Lists all strings of `n_digits` lowercase hexadecimal digits in
/// ascending order: the numerals of `0`, `1`, and so on up to
/// `16^n_digits - 1`, each padded with zeros to `n_digits` digits.
///
/// The request is turned down with `InvalidWidth` when `n_digits` is zero
/// or greater than fifteen.
pub fn generate_consecutive_hex_strings(n_digits: u32) -> (result: Result<Vec<String>, JobError>)
    ensures
        match result {
            Ok(strings) => {
                &&& valid_width(hex_alphabet(), n_digits as nat)
                &&& strings@.len() == prefix_count(hex_alphabet(), n_digits as nat)
                &&& forall|i: int|
                    0 <= i < strings@.len() ==> (#[trigger] strings@[i])@ == hex_string(
                        n_digits as nat,
                        i,
                    )
            },
            Err(e) => e == JobError::InvalidWidth && !valid_width(
                hex_alphabet(),
                n_digits as nat,
            ),
        },
{
    if n_digits == 0 {
        return Err(JobError::InvalidWidth);
    }
    let symbols = hex_symbols();
    let count: u64 = match count_prefixes(symbols.len() as u64, n_digits) {
        Some(n) => n,
        None => {
            return Err(JobError::InvalidWidth);
        },
    };
    let mut strings: Vec<String> = Vec::new();
    let mut i: u64 = 0;
    while i < count
        invariant
            symbols@ == hex_alphabet(),
            i <= count,
            strings@.len() == i,
            forall|k: int|
                0 <= k < i ==> (#[trigger] strings@[k])@ == hex_string(n_digits as nat, k),
        decreases count - i,
    {
        let digits = nth_prefix(symbols.as_slice(), n_digits, i);
        proof {
            lemma_prefix_shape(hex_alphabet(), n_digits as nat, i as int);
        }
        strings.push(digits_to_string(digits.as_slice()));
        i += 1;
    }
    Ok(strings)
}

/// The thread-local generator of the `rand` crate.
#[verifier::external_type_specification]
#[verifier::external_body]
pub struct ExThreadRng(ThreadRng);

/// Calls `rand::rng`, which hands out a handle to the generator of the
/// current thread. Nothing is claimed of the handle. The call panics where
/// the operating system fails to seed the generator of the thread.
#[verifier::external_body]
fn thread_generator() -> (generator: ThreadRng) {
    rand::rng()
}

/// Calls `random_range` on the generator with the range from zero up to,
/// and without, `bound`. The contract claims what that method documents:
/// the value drawn lies in the range. The call panics where the generator
/// is due for new seed and the operating system fails to give it.
#[verifier::external_body]
fn draw_below(generator: &mut ThreadRng, bound: u8) -> (value: u8)
    requires
        bound > 0,
    ensures
        value < bound,
{
    generator.random_range(0..bound)
}

/// The hexadecimal digits that stand for the values, one digit for each.
pub open spec fn digits_of(values: Seq<u8>) -> Seq<u8> {
    Seq::new(values.len(), |i: int| hex_digit(values[i] as int))
}

/// Every value is below sixteen, and so has a hexadecimal digit.
pub open spec fn all_below_sixteen(values: Seq<u8>) -> bool {
    forall|i: int| 0 <= i < values.len() ==> #[trigger] values[i] < 16
}

/// Writes values out as a string of lowercase hexadecimal digits, one digit
/// for each value. There is no string where a value is sixteen or more.
pub fn hex_string_of_values(values: &[u8]) -> (text: Option<String>)
    ensures
        match text {
            Some(text) => all_below_sixteen(values@) && text@ == as_chars(digits_of(values@)),
            None => !all_below_sixteen(values@),
        },
{
    let mut digits: Vec<u8> = Vec::new();
    let mut i: usize = 0;
    while i < values.len()
        invariant
            i <= values@.len(),
            all_below_sixteen(values@.take(i as int)),
            digits@ == digits_of(values@.take(i as int)),
        decreases values@.len() - i,
    {
        if values[i] >= 16 {
            return None;
        }
        digits.push(hex_symbol(values[i]));
        proof {
            let (before, after) = (values@.take(i as int), values@.take(i + 1));
            assert forall|k: int| 0 <= k < after.len() implies #[trigger] after[k] < 16 by {
                if k < i {
                    assert(before[k] == after[k]);
                }
            }
            assert(digits@ =~= digits_of(after));
        }
        i += 1;
    }
    proof {
        assert(values@.take(i as int) =~= values@);
        assert forall|k: int| 0 <= k < digits@.len() implies is_hex_digit(
            #[trigger] digits@[k],
        ) by {
            assert(values@[k] < 16);
        }
    }
    Some(digits_to_string(digits.as_slice()))
}

/// Draws a string of `n_digits` lowercase hexadecimal digits at random:
/// one draw of a value below sixteen for each digit.
pub fn generate_random_hex_string(n_digits: usize) -> (text: String)
    ensures
        text@.len() == n_digits,
        forall|i: int| 0 <= i < n_digits ==> is_hex_char(#[trigger] text@[i]),
        exists|digits: Seq<u8>|
            {
                &&& digits.len() == n_digits
                &&& forall|i: int| 0 <= i < n_digits ==> is_hex_digit(#[trigger] digits[i])
                &&& text@ == #[trigger] as_chars(digits)
            },
{
    let mut generator = thread_generator();
    let mut values: Vec<u8> = Vec::new();
    let mut i: usize = 0;
    while i < n_digits
        invariant
            i <= n_digits,
            values@.len() == i,
            all_below_sixteen(values@),
        decreases n_digits - i,
    {
        let value = draw_below(&mut generator, 16);
        values.push(value);
        i += 1;
    }
    match hex_string_of_values(values.as_slice()) {
        Some(text) => {
            proof {
                let digits = digits_of(values@);
                assert forall|k: int| 0 <= k < n_digits implies is_hex_digit(
                    #[trigger] digits[k],
                ) by {
                    assert(values@[k] < 16);
                }
                assert(text@ == as_chars(digits));
                assert forall|k: int| 0 <= k < n_digits implies is_hex_char(
                    #[trigger] text@[k],
                ) by {
                    assert(is_hex_digit(digits[k]));
                    assert(text@[k] == digits[k] as char);
                }
            }
            text
        },
        None => unreached(),
    }
}

} // verus!
