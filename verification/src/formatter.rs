//! Formatting digit sequences back into text: digit values 0 through 9
//! map to the glyphs '0' through '9', values 10 through 35 to 'A' through
//! 'Z', and the integer and fractional parts are joined with '.' only when
//! the fractional part is non-empty.

use vstd::prelude::*;

verus! {

/// Glyph of one digit value: '0'-'9' for 0-9, 'A'-'Z' for 10-35.
pub open spec fn char_of_digit(digit: u32) -> char
    recommends
        digit < 36,
{
    if digit < 10 {
        ((48 + digit) as u8) as char
    } else {
        ((55 + digit) as u8) as char
    }
}

/// The glyphs of a whole digit sequence.
pub open spec fn chars_of_digits(digits: Seq<u32>) -> Seq<char> {
    digits.map_values(|d: u32| char_of_digit(d))
}

/// Text of a formatted result: the integer glyphs (a lone '0' when there
/// are none), then '.' and the fractional glyphs when any are present.
pub open spec fn formatted(integer_digits: Seq<u32>, fractional_digits: Seq<u32>) -> Seq<char> {
    let int_part = if integer_digits.len() == 0 {
        seq!['0']
    } else {
        chars_of_digits(integer_digits)
    };
    if fractional_digits.len() == 0 {
        int_part
    } else {
        int_part + seq!['.'] + chars_of_digits(fractional_digits)
    }
}

/// Maps one digit value to its glyph.
pub fn digit_to_char(digit: u32) -> (c: char)
    requires
        digit < 36,
    ensures
        c == char_of_digit(digit),
{
    if digit < 10 {
        (digit as u8 + 48) as char
    } else {
        (digit as u8 + 55) as char
    }
}

/// Relies on std's `String::push`: appends the given character at the end
/// of the string.
#[verifier::external_body]
pub(crate) fn push_char(s: &mut String, c: char)
    ensures
        final(s)@ == old(s)@.push(c),
{
    s.push(c)
}

/// Renders a converted number as text. An empty integer part prints as
/// '0'; the '.' separator appears exactly when the fractional part is
/// non-empty.
pub fn format_result(integer_digits: &[u32], fractional_digits: &[u32]) -> (result: String)
    requires
        forall|i: int| 0 <= i < integer_digits@.len() ==> integer_digits@[i] < 36,
        forall|i: int| 0 <= i < fractional_digits@.len() ==> fractional_digits@[i] < 36,
    ensures
        result@ == formatted(integer_digits@, fractional_digits@),
{
    let mut result = String::new();
    if integer_digits.len() == 0 {
        push_char(&mut result, '0');
        proof {
            assert(result@ =~= seq!['0']);
        }
    } else {
        let n = integer_digits.len();
        let mut i: usize = 0;
        while i < n
            invariant
                0 <= i <= n,
                n == integer_digits@.len(),
                forall|m: int| 0 <= m < integer_digits@.len() ==> integer_digits@[m] < 36,
                result@ == chars_of_digits(integer_digits@.take(i as int)),
            decreases n - i,
        {
            let c = digit_to_char(integer_digits[i]);
            push_char(&mut result, c);
            proof {
                assert(chars_of_digits(integer_digits@.take(i as int + 1)) =~= chars_of_digits(
                    integer_digits@.take(i as int),
                ).push(char_of_digit(integer_digits@[i as int])));
            }
            i += 1;
        }
        proof {
            assert(integer_digits@.take(n as int) =~= integer_digits@);
        }
    }
    let ghost int_part = result@;
    if fractional_digits.len() > 0 {
        push_char(&mut result, '.');
        proof {
            assert(result@ =~= int_part + seq!['.'] + chars_of_digits(
                fractional_digits@.take(0),
            ));
        }
        let n = fractional_digits.len();
        let mut j: usize = 0;
        while j < n
            invariant
                0 <= j <= n,
                n == fractional_digits@.len(),
                forall|m: int| 0 <= m < fractional_digits@.len() ==> fractional_digits@[m] < 36,
                result@ == int_part + seq!['.'] + chars_of_digits(fractional_digits@.take(j as int)),
            decreases n - j,
        {
            let c = digit_to_char(fractional_digits[j]);
            push_char(&mut result, c);
            proof {
                assert((int_part + seq!['.'] + chars_of_digits(fractional_digits@.take(j as int)))
                    .push(char_of_digit(fractional_digits@[j as int])) =~= int_part + seq!['.']
                    + chars_of_digits(fractional_digits@.take(j as int + 1)));
            }
            j += 1;
        }
        proof {
            assert(fractional_digits@.take(n as int) =~= fractional_digits@);
        }
    }
    result
}

} // verus!
