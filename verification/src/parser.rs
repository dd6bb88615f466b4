//! Parsing textual numerals into digit-value sequences: a literal with at
//! most one '.' separator and a declared radix becomes an integer digit
//! sequence and a fractional digit sequence, with every character checked
//! to denote a digit value strictly below the radix.

use crate::converter::{digits_of_value, lemma_value_take_le, value_of_digits};
use crate::formatter::{char_of_digit, chars_of_digits, digit_to_char, push_char};
use vstd::arithmetic::div_mod::{
    lemma_div_decreases, lemma_div_pos_is_pos, lemma_fundamental_div_mod, lemma_mod_bound,
};
use vstd::arithmetic::mul::{
    lemma_mul_inequality, lemma_mul_is_commutative, lemma_mul_is_distributive_add,
};
use vstd::prelude::*;
use vstd::string::{StrSliceExecFns, StringExecFns};

verus! {

/// Digit value a character denotes: '0'-'9' give 0-9, letters of either
/// case give 10-35, everything else gives -1.
pub open spec fn digit_of_char(c: char) -> int {
    let u = c as u32;
    if 48 <= u && u <= 57 {
        u - 48
    } else if 97 <= u && u <= 122 {
        (u - 97) + 10
    } else if 65 <= u && u <= 90 {
        (u - 65) + 10
    } else {
        -1
    }
}

/// Whether a character denotes a digit value below the base.
pub open spec fn valid_digit(c: char, base: int) -> bool {
    0 <= digit_of_char(c) < base
}

/// The digit values of a character sequence.
pub open spec fn digits_of_chars(s: Seq<char>) -> Seq<u32> {
    s.map_values(|c: char| digit_of_char(c) as u32)
}

/// Index of the first '.' in the sequence, or its length when it has none.
pub open spec fn dot_pos(s: Seq<char>) -> int
    decreases s.len(),
{
    if s.len() == 0 {
        0
    } else if s[0] == '.' {
        0
    } else {
        1 + dot_pos(s.skip(1))
    }
}

/// `dot_pos` is pinned down by its characteristic properties: no '.'
/// before it, and a '.' at it unless it is the length.
pub proof fn lemma_dot_pos_at(s: Seq<char>, k: int)
    requires
        0 <= k <= s.len(),
        forall|j: int| 0 <= j < k ==> s[j] != '.',
        k < s.len() ==> s[k] == '.',
    ensures
        dot_pos(s) == k,
    decreases s.len(),
{
    if s.len() == 0 {
    } else if s[0] == '.' {
        assert(k == 0);
    } else {
        assert(k >= 1);
        assert forall|j: int| 0 <= j < k - 1 implies s.skip(1)[j] != '.' by {
            assert(s.skip(1)[j] == s[j + 1]);
        }
        if k - 1 < s.len() - 1 {
            assert(s.skip(1)[k - 1] == s[k]);
        }
        lemma_dot_pos_at(s.skip(1), k - 1);
    }
}

/// The inputs on which parsing fails: a radix outside 2..=36, more than
/// one '.' separator, an empty literal, or a character (other than the
/// separator) that does not denote a digit value below the radix.
pub open spec fn parse_rejects(s: Seq<char>, base: int) -> bool {
    ||| base < 2
    ||| base > 36
    ||| exists|i: int, j: int| 0 <= i < j < s.len() && s[i] == '.' && s[j] == '.'
    ||| s.len() == 0
    ||| exists|i: int| 0 <= i < s.len() && s[i] != '.' && !valid_digit(s[i], base)
}

/// Integer part of an accepted literal: the digit values before the
/// separator, or `[0]` when there are none.
pub open spec fn parsed_integer(s: Seq<char>) -> Seq<u32> {
    if dot_pos(s) == 0 {
        seq![0u32]
    } else {
        digits_of_chars(s.take(dot_pos(s)))
    }
}

/// Fractional part of an accepted literal: the digit values after the
/// separator, empty when the literal has none.
pub open spec fn parsed_fraction(s: Seq<char>) -> Seq<u32> {
    if dot_pos(s) < s.len() {
        digits_of_chars(s.skip(dot_pos(s) + 1))
    } else {
        Seq::empty()
    }
}

/// Decimal text of a number, for failure messages.
fn decimal_string(n: u32) -> (result: String)
    ensures
        result@ == if n == 0 {
            seq!['0']
        } else {
            chars_of_digits(digits_of_value(n as int, 10))
        },
{
    let mut s = String::new();
    if n == 0 {
        push_char(&mut s, '0');
        proof {
            assert(s@ =~= seq!['0']);
        }
        return s;
    }
    let mut rem: Vec<u32> = Vec::new();
    let mut m = n;
    proof {
        assert(digits_of_value(n as int, 10) =~= digits_of_value(m as int, 10) + rem@.reverse());
    }
    while m > 0
        invariant
            digits_of_value(n as int, 10) == digits_of_value(m as int, 10) + rem@.reverse(),
            forall|i: int| 0 <= i < rem@.len() ==> rem@[i] < 10,
        decreases m,
    {
        proof {
            lemma_div_decreases(m as int, 10);
            lemma_div_pos_is_pos(m as int, 10);
            lemma_mod_bound(m as int, 10);
            assert(digits_of_value((m / 10) as int, 10).push((m % 10) as u32) + rem@.reverse()
                =~= digits_of_value((m / 10) as int, 10) + rem@.push((m % 10) as u32).reverse());
        }
        rem.push(m % 10);
        m = m / 10;
    }
    proof {
        assert(digits_of_value(n as int, 10) =~= rem@.reverse());
    }
    let k = rem.len();
    let mut j: usize = 0;
    while j < k
        invariant
            0 <= j <= k,
            k == rem@.len(),
            forall|i: int| 0 <= i < rem@.len() ==> rem@[i] < 10,
            s@.len() == j,
            forall|i: int| 0 <= i < j ==> s@[i] == char_of_digit(rem@[k - 1 - i]),
        decreases k - j,
    {
        let c = digit_to_char(rem[k - 1 - j]);
        push_char(&mut s, c);
        j += 1;
    }
    proof {
        assert(s@ =~= chars_of_digits(digits_of_value(n as int, 10)));
    }
    s
}

/// Digit value of one character under the given base. A character that is
/// neither an ASCII digit nor an ASCII letter, or whose digit value
/// reaches the base, is rejected with a message naming it.
pub fn char_to_digit(c: char, base: u32) -> (result: Result<u32, String>)
    ensures
        match result {
            Ok(d) => valid_digit(c, base as int) && d == digit_of_char(c),
            Err(_) => !valid_digit(c, base as int),
        },
{
    let u = c as u32;
    let digit: u32;
    if 48 <= u && u <= 57 {
        digit = u - 48;
    } else if 97 <= u && u <= 122 {
        digit = (u - 97) + 10;
    } else if 65 <= u && u <= 90 {
        digit = (u - 65) + 10;
    } else {
        let mut msg = String::from_str("Invalid character: '");
        push_char(&mut msg, c);
        push_char(&mut msg, '\'');
        return Err(msg);
    }
    if digit >= base {
        let mut msg = String::from_str("Digit '");
        push_char(&mut msg, c);
        msg.append("' is invalid for base ");
        let base_text = decimal_string(base);
        msg.append(base_text.as_str());
        return Err(msg);
    }
    Ok(digit)
}

/// Parses a textual numeral under the given base into its integer and
/// fractional digit sequences.
///
/// The base must lie in 2..=36, the literal may hold at most one '.'
/// separator and must not be empty, and every other character must denote
/// a digit value below the base; any violation is rejected with a
/// descriptive message. An empty integer part (a literal starting with
/// '.') parses as `[0]`; an absent fractional part parses as the empty
/// sequence.
pub fn parse_number(value: &str, base: u32) -> (result: Result<(Vec<u32>, Vec<u32>), String>)
    ensures
        match result {
            Ok(parts) => {
                &&& !parse_rejects(value@, base as int)
                &&& parts.0@ == parsed_integer(value@)
                &&& parts.1@ == parsed_fraction(value@)
                &&& parts.0@.len() >= 1
                &&& forall|i: int| 0 <= i < parts.0@.len() ==> parts.0@[i] < base
                &&& forall|i: int| 0 <= i < parts.1@.len() ==> parts.1@[i] < base
            },
            Err(_) => parse_rejects(value@, base as int),
        },
{
    if base < 2 || base > 36 {
        let mut msg = String::from_str("Base must be between 2 and 36, got ");
        let base_text = decimal_string(base);
        msg.append(base_text.as_str());
        return Err(msg);
    }
    let n = value.unicode_len();
    // find the first separator
    let mut found = false;
    let mut i: usize = 0;
    while i < n && !found
        invariant
            0 <= i <= n,
            n == value@.len(),
            forall|j: int| 0 <= j < i ==> value@[j] != '.',
            found ==> i < n && value@[i as int] == '.',
        decreases n - i + (if found {
            0int
        } else {
            1int
        }),
    {
        if value.get_char(i) == '.' {
            found = true;
        } else {
            i += 1;
        }
    }
    let dp: usize = i;
    proof {
        if found {
            lemma_dot_pos_at(value@, dp as int);
        } else {
            lemma_dot_pos_at(value@, n as int);
        }
        assert(dot_pos(value@) == dp as int);
    }
    // reject a second separator
    if found {
        let mut j: usize = dp + 1;
        while j < n
            invariant
                dp < n == value@.len(),
                dp + 1 <= j <= n,
                value@[dp as int] == '.',
                forall|m: int| dp < m < j ==> value@[m] != '.',
            decreases n - j,
        {
            if value.get_char(j) == '.' {
                assert(value@[dp as int] == '.' && value@[j as int] == '.' && dp < j);
                return Err(String::from_str("Invalid number format: multiple decimal points"));
            }
            j += 1;
        }
    }
    proof {
        assert forall|a: int, b: int|
            0 <= a < b < value@.len() && value@[a] == '.' implies value@[b] != '.' by {
            assert(a >= dp);
        }
    }
    if n == 0 {
        return Err(String::from_str("Empty number"));
    }
    // integer part
    let mut int_digits: Vec<u32> = Vec::new();
    if dp == 0 {
        int_digits.push(0);
    } else {
        let mut p: usize = 0;
        while p < dp
            invariant
                0 <= p <= dp <= value@.len(),
                2 <= base <= 36,
                dot_pos(value@) == dp as int,
                forall|j: int| 0 <= j < dp ==> value@[j] != '.',
                int_digits@ == digits_of_chars(value@.take(p as int)),
                forall|j: int| 0 <= j < p ==> valid_digit(value@[j], base as int),
                forall|m: int| 0 <= m < int_digits@.len() ==> int_digits@[m] < base,
            decreases dp - p,
        {
            let c = value.get_char(p);
            match char_to_digit(c, base) {
                Ok(d) => {
                    proof {
                        assert(digits_of_chars(value@.take(p as int + 1)) =~= digits_of_chars(
                            value@.take(p as int),
                        ).push(digit_of_char(value@[p as int]) as u32));
                    }
                    int_digits.push(d);
                },
                Err(e) => {
                    assert(value@[p as int] != '.' && !valid_digit(value@[p as int], base as int));
                    return Err(e);
                },
            }
            p += 1;
        }
    }
    // fractional part
    let mut frac_digits: Vec<u32> = Vec::new();
    if found {
        let mut q: usize = dp + 1;
        while q < n
            invariant
                dp < n == value@.len(),
                dp + 1 <= q <= n,
                2 <= base <= 36,
                frac_digits@ == digits_of_chars(value@.subrange(dp as int + 1, q as int)),
                forall|j: int| dp < j < q ==> valid_digit(value@[j], base as int),
                forall|j: int| dp < j < n ==> value@[j] != '.',
                forall|m: int| 0 <= m < frac_digits@.len() ==> frac_digits@[m] < base,
            decreases n - q,
        {
            let c = value.get_char(q);
            match char_to_digit(c, base) {
                Ok(d) => {
                    proof {
                        assert(digits_of_chars(value@.subrange(dp as int + 1, q as int + 1))
                            =~= digits_of_chars(value@.subrange(dp as int + 1, q as int)).push(
                            digit_of_char(value@[q as int]) as u32,
                        ));
                    }
                    frac_digits.push(d);
                },
                Err(e) => {
                    assert(value@[q as int] != '.' && !valid_digit(value@[q as int], base as int));
                    return Err(e);
                },
            }
            q += 1;
        }
    }
    proof {
        // every character is accounted for: before the separator, the
        // separator itself, or after it
        assert forall|m: int|
            0 <= m < value@.len() && value@[m] != '.' implies valid_digit(value@[m], base as int) by {
            if m < dp {
            } else if m == dp {
            } else {
            }
        }
        if dp == 0 {
            assert(int_digits@ =~= seq![0u32]);
        } else {
            assert(value@.take(dp as int) == value@.take(dot_pos(value@)));
        }
        if found {
            assert(value@.subrange(dp as int + 1, n as int) =~= value@.skip(dp as int + 1));
        }
    }
    Ok((int_digits, frac_digits))
}

/// The characters a base entry is judged by: an optional leading '+' is
/// skipped, the rest must be decimal digits.
pub open spec fn numeric_body(s: Seq<char>) -> Seq<char> {
    if s.len() > 0 && s[0] == '+' {
        s.skip(1)
    } else {
        s
    }
}

/// Reads a whole line of text as a decimal number, as the interactive
/// front end does for a base entry: an optional leading '+', then at
/// least one decimal digit, denoting a value that fits in 32 bits;
/// anything else gives nothing.
pub fn parse_base(input: &str) -> (result: Option<u32>)
    ensures
        match result {
            Some(v) => {
                let t = numeric_body(input@);
                &&& t.len() > 0
                &&& forall|i: int| 0 <= i < t.len() ==> valid_digit(t[i], 10)
                &&& v == value_of_digits(digits_of_chars(t), 10)
            },
            None => {
                let t = numeric_body(input@);
                ||| t.len() == 0
                ||| exists|i: int| 0 <= i < t.len() && !valid_digit(t[i], 10)
                ||| value_of_digits(digits_of_chars(t), 10) > u32::MAX
            },
        },
{
    let n = input.unicode_len();
    let start: usize = if n > 0 && input.get_char(0) == '+' {
        1
    } else {
        0
    };
    let ghost t = numeric_body(input@);
    proof {
        assert(t =~= input@.subrange(start as int, n as int));
    }
    if start == n {
        return None;
    }
    let mut acc: u32 = 0;
    let mut i: usize = start;
    while i < n
        invariant
            start <= i <= n,
            n == input@.len(),
            start <= 1,
            t == numeric_body(input@),
            t == input@.subrange(start as int, n as int),
            forall|j: int| start <= j < i ==> valid_digit(input@[j], 10),
            acc == value_of_digits(digits_of_chars(input@.subrange(start as int, i as int)), 10),
        decreases n - i,
    {
        let c = input.get_char(i);
        let u = c as u32;
        if u < 48 || u > 57 {
            proof {
                assert(t[i - start as int] == input@[i as int]);
                assert(!valid_digit(t[i - start as int], 10));
            }
            return None;
        }
        let d = u - 48;
        let threshold = (u32::MAX - d) / 10;
        proof {
            lemma_fundamental_div_mod((u32::MAX - d) as int, 10);
            lemma_mod_bound((u32::MAX - d) as int, 10);
            assert(digits_of_chars(input@.subrange(start as int, i as int + 1))
                =~= digits_of_chars(input@.subrange(start as int, i as int)).push(d));
            let ds = digits_of_chars(input@.subrange(start as int, i as int));
            assert(ds.push(d).drop_last() =~= ds);
            assert(value_of_digits(ds.push(d), 10) == acc * 10 + d);
        }
        if acc > threshold {
            proof {
                // acc * 10 + d exceeds u32::MAX, and longer digit strings
                // only denote more
                lemma_mul_inequality(threshold as int + 1, acc as int, 10);
                lemma_mul_is_distributive_add(10, threshold as int, 1);
                lemma_mul_is_commutative(10, threshold as int + 1);
                lemma_mul_is_commutative(10, threshold as int);
                assert(acc * 10 + d > u32::MAX);
                let whole = digits_of_chars(t);
                let m = i + 1 - start as int;
                assert(whole.take(m) =~= digits_of_chars(input@.subrange(start as int, i as int
                    + 1)));
                lemma_value_take_le(whole, 10, m);
                assert(value_of_digits(whole, 10) > u32::MAX);
            }
            return None;
        }
        proof {
            lemma_mul_inequality(acc as int, threshold as int, 10);
            lemma_mul_is_commutative(10, threshold as int);
            assert(acc * 10 + d <= u32::MAX);
        }
        acc = acc * 10 + d;
        i += 1;
    }
    proof {
        assert forall|j: int| 0 <= j < t.len() implies valid_digit(t[j], 10) by {
            assert(t[j] == input@[j + start]);
        }
    }
    Some(acc)
}

} // verus!
