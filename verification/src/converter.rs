//! The two core converters: integer-part and fractional-part radix
//! conversion on digit-value sequences.
//!
//! A digit sequence is most-significant first; every element is a digit
//! value strictly below its radix. The integer converter folds the input
//! into one magnitude and re-emits it in the target radix; the fractional
//! converter treats the input as an exact fraction and emits target-radix
//! digits by repeated multiplication, up to a caller-supplied precision,
//! stopping early once the remaining fraction is zero or falls below a
//! fixed tolerance of one part in 10^15.

use vstd::arithmetic::div_mod::{
    lemma_div_decreases, lemma_div_pos_is_pos, lemma_fundamental_div_mod,
    lemma_fundamental_div_mod_converse_div, lemma_fundamental_div_mod_converse_mod,
    lemma_mod_bound, lemma_multiply_divide_lt, lemma_remainder_lower, lemma_remainder_upper,
};
use vstd::arithmetic::mul::{
    lemma_mul_inequality, lemma_mul_is_commutative, lemma_mul_is_distributive_add,
    lemma_mul_is_distributive_sub, lemma_mul_nonnegative, lemma_mul_strict_inequality,
};
use vstd::arithmetic::power::{lemma_pow_increases, lemma_pow_positive, pow};
use vstd::prelude::*;

verus! {

/// Magnitude denoted by a digit sequence read most-significant first in
/// the given base: the classic positional fold.
pub open spec fn value_of_digits(digits: Seq<u32>, base: int) -> int
    decreases digits.len(),
{
    if digits.len() == 0 {
        0
    } else {
        value_of_digits(digits.drop_last(), base) * base + digits.last()
    }
}

/// Canonical digit sequence of a non-negative magnitude in the given base:
/// most-significant first, no leading zeros, empty exactly for zero.
pub open spec fn digits_of_value(n: int, base: int) -> Seq<u32>
    decreases n,
    when n >= 0 && base >= 2
    via digits_of_value_decreases
{
    if n <= 0 {
        Seq::empty()
    } else {
        digits_of_value(n / base, base).push((n % base) as u32)
    }
}

#[via_fn]
proof fn digits_of_value_decreases(n: int, base: int) {
    if n > 0 {
        lemma_div_decreases(n, base);
        lemma_div_pos_is_pos(n, base);
    }
}

/// What the integer converter returns: the single digit 0 for a zero
/// magnitude, else the canonical target-radix digit sequence.
pub open spec fn integer_conversion(digits: Seq<u32>, from: int, to: int) -> Seq<u32> {
    let v = value_of_digits(digits, from);
    if v == 0 {
        seq![0u32]
    } else {
        digits_of_value(v, to)
    }
}

/// A digit sequence never denotes a negative magnitude.
pub proof fn lemma_value_nonneg(digits: Seq<u32>, base: int)
    requires
        base >= 0,
    ensures
        value_of_digits(digits, base) >= 0,
    decreases digits.len(),
{
    if digits.len() > 0 {
        lemma_value_nonneg(digits.drop_last(), base);
        lemma_mul_nonnegative(value_of_digits(digits.drop_last(), base), base);
    }
}

/// Extending a prefix by one digit multiplies its value by the base and
/// adds that digit.
pub proof fn lemma_value_take_succ(digits: Seq<u32>, base: int, i: int)
    requires
        0 <= i < digits.len(),
    ensures
        value_of_digits(digits.take(i + 1), base) == value_of_digits(digits.take(i), base) * base
            + digits[i],
{
    assert(digits.take(i + 1).drop_last() =~= digits.take(i));
    assert(digits.take(i + 1).last() == digits[i]);
}

/// A prefix never denotes more than the whole sequence.
pub proof fn lemma_value_take_le(digits: Seq<u32>, base: int, i: int)
    requires
        base >= 1,
        0 <= i <= digits.len(),
    ensures
        value_of_digits(digits.take(i), base) <= value_of_digits(digits, base),
    decreases digits.len() - i,
{
    if i == digits.len() {
        assert(digits.take(i) =~= digits);
    } else {
        lemma_value_take_succ(digits, base, i);
        lemma_value_nonneg(digits.take(i), base);
        let v = value_of_digits(digits.take(i), base);
        lemma_mul_inequality(1, base, v);
        lemma_mul_is_commutative(v, base);
        lemma_value_take_le(digits, base, i + 1);
    }
}

/// With every digit below the base, the magnitude stays below base^len.
pub proof fn lemma_value_upper_bound(digits: Seq<u32>, base: int)
    requires
        base >= 2,
        forall|i: int| 0 <= i < digits.len() ==> digits[i] < base,
    ensures
        value_of_digits(digits, base) < pow(base, digits.len() as nat),
    decreases digits.len(),
{
    reveal(pow);
    if digits.len() > 0 {
        let prefix = digits.drop_last();
        lemma_value_upper_bound(prefix, base);
        lemma_value_nonneg(prefix, base);
        let v = value_of_digits(prefix, base);
        let p = pow(base, prefix.len() as nat);
        // v <= p - 1, so v * base + last <= (p - 1) * base + base - 1 < p * base
        lemma_mul_inequality(v, p - 1, base);
        lemma_mul_is_distributive_sub(base, p, 1);
        lemma_mul_is_commutative(base, p);
        assert(pow(base, digits.len() as nat) == base * pow(base, prefix.len() as nat));
    }
}

/// Every digit that `digits_of_value` emits is below the base.
pub proof fn lemma_canonical_digits_in_range(n: int, base: int)
    requires
        n >= 0,
        2 <= base <= 36,
    ensures
        forall|i: int|
            0 <= i < digits_of_value(n, base).len() ==> digits_of_value(n, base)[i] < base,
    decreases n,
{
    if n > 0 {
        lemma_div_decreases(n, base);
        lemma_div_pos_is_pos(n, base);
        lemma_canonical_digits_in_range(n / base, base);
        lemma_remainder_upper(n, base);
        lemma_remainder_lower(n, base);
        let rec = digits_of_value(n / base, base);
        assert forall|i: int| 0 <= i < digits_of_value(n, base).len() implies digits_of_value(
            n,
            base,
        )[i] < base by {
            if i < rec.len() {
                assert(digits_of_value(n, base)[i] == rec[i]);
            } else {
                assert(digits_of_value(n, base)[i] == (n % base) as u32);
            }
        }
    }
}

/// The canonical digits of a positive magnitude start with a non-zero
/// digit: `digits_of_value` never produces a leading zero.
pub proof fn lemma_canonical_no_leading_zero(n: int, base: int)
    requires
        n > 0,
        2 <= base <= 36,
    ensures
        digits_of_value(n, base).len() > 0,
        digits_of_value(n, base)[0] != 0,
    decreases n,
{
    lemma_div_decreases(n, base);
    lemma_div_pos_is_pos(n, base);
    lemma_remainder_lower(n, base);
    lemma_remainder_upper(n, base);
    let rec = digits_of_value(n / base, base);
    if n / base > 0 {
        lemma_canonical_no_leading_zero(n / base, base);
        assert(digits_of_value(n, base)[0] == rec[0]);
    } else {
        lemma_fundamental_div_mod(n, base);
        assert(base * (n / base) == 0) by (nonlinear_arith)
            requires
                n / base == 0,
        ;
        assert(n % base == n);
        assert(digits_of_value(n, base)[0] == (n % base) as u32);
    }
}

/// Reading the canonical digits back yields the magnitude they came from.
pub proof fn lemma_value_of_canonical(n: int, base: int)
    requires
        n >= 0,
        2 <= base <= 36,
    ensures
        value_of_digits(digits_of_value(n, base), base) == n,
    decreases n,
{
    if n > 0 {
        lemma_div_decreases(n, base);
        lemma_div_pos_is_pos(n, base);
        lemma_value_of_canonical(n / base, base);
        let s = digits_of_value(n / base, base).push((n % base) as u32);
        assert(s.drop_last() =~= digits_of_value(n / base, base));
        lemma_remainder_lower(n, base);
        lemma_remainder_upper(n, base);
        assert(s.last() == n % base);
        assert(value_of_digits(s, base) == (n / base) * base + n % base);
        lemma_fundamental_div_mod(n, base);
        lemma_mul_is_commutative(n / base, base);
    }
}

/// The one-digit sequence `[0]` denotes zero.
pub proof fn lemma_zero_digit_value(base: int)
    ensures
        value_of_digits(seq![0u32], base) == 0,
{
    assert(seq![0u32].drop_last() =~= Seq::<u32>::empty());
    assert(value_of_digits(Seq::<u32>::empty(), base) == 0);
    assert(seq![0u32].last() == 0u32);
}

/// The digit sequence with its leading zeros removed; empty when every
/// digit is zero.
pub open spec fn strip_leading_zeros(digits: Seq<u32>) -> Seq<u32>
    decreases digits.len(),
{
    if digits.len() == 0 {
        digits
    } else if digits[0] == 0 {
        strip_leading_zeros(digits.skip(1))
    } else {
        digits
    }
}

/// The canonical form of an integer-part digit sequence: leading zeros
/// removed, and the all-zero (or empty) sequence written as `[0]`.
pub open spec fn normalize_digits(digits: Seq<u32>) -> Seq<u32> {
    if strip_leading_zeros(digits).len() == 0 {
        seq![0u32]
    } else {
        strip_leading_zeros(digits)
    }
}

/// A zero digit in front does not change the magnitude.
proof fn lemma_cons_zero_value(t: Seq<u32>, base: int)
    ensures
        value_of_digits(seq![0u32] + t, base) == value_of_digits(t, base),
    decreases t.len(),
{
    if t.len() == 0 {
        assert(seq![0u32] + t =~= seq![0u32]);
        lemma_zero_digit_value(base);
    } else {
        let s = seq![0u32] + t;
        assert(s.drop_last() =~= seq![0u32] + t.drop_last());
        assert(s.last() == t.last());
        lemma_cons_zero_value(t.drop_last(), base);
    }
}

/// Removing leading zeros does not change the magnitude.
pub proof fn lemma_strip_preserves_value(digits: Seq<u32>, base: int)
    ensures
        value_of_digits(strip_leading_zeros(digits), base) == value_of_digits(digits, base),
    decreases digits.len(),
{
    if digits.len() > 0 && digits[0] == 0 {
        assert(digits =~= seq![0u32] + digits.skip(1));
        lemma_cons_zero_value(digits.skip(1), base);
        lemma_strip_preserves_value(digits.skip(1), base);
    }
}

/// A sequence denoting zero consists of zero digits only.
proof fn lemma_zero_value_all_zero(digits: Seq<u32>, base: int)
    requires
        base >= 2,
        value_of_digits(digits, base) == 0,
    ensures
        forall|i: int| 0 <= i < digits.len() ==> digits[i] == 0,
    decreases digits.len(),
{
    if digits.len() > 0 {
        let p = digits.drop_last();
        lemma_value_nonneg(p, base);
        lemma_mul_nonnegative(value_of_digits(p, base), base);
        if value_of_digits(p, base) > 0 {
            lemma_mul_strict_inequality(0, value_of_digits(p, base), base);
        }
        lemma_zero_value_all_zero(p, base);
        assert forall|i: int| 0 <= i < digits.len() implies digits[i] == 0 by {
            if i < digits.len() - 1 {
                assert(digits[i] == p[i]);
            } else {
                assert(digits[i] == digits.last());
            }
        }
    }
}

/// Stripping an all-zero sequence leaves nothing.
proof fn lemma_strip_all_zero(digits: Seq<u32>)
    requires
        forall|i: int| 0 <= i < digits.len() ==> digits[i] == 0,
    ensures
        strip_leading_zeros(digits).len() == 0,
    decreases digits.len(),
{
    if digits.len() > 0 {
        lemma_strip_all_zero(digits.skip(1));
    }
}

/// What stripping leaves never starts with a zero digit, and its digits
/// all come from the original sequence's digit range.
proof fn lemma_strip_shape(digits: Seq<u32>, bound: int)
    requires
        forall|i: int| 0 <= i < digits.len() ==> digits[i] < bound,
    ensures
        strip_leading_zeros(digits).len() > 0 ==> strip_leading_zeros(digits)[0] != 0,
        forall|i: int|
            0 <= i < strip_leading_zeros(digits).len() ==> strip_leading_zeros(digits)[i] < bound,
    decreases digits.len(),
{
    if digits.len() > 0 && digits[0] == 0 {
        lemma_strip_shape(digits.skip(1), bound);
    }
}

/// A sequence with a non-zero leading digit denotes a positive magnitude.
proof fn lemma_leading_nonzero_value_pos(digits: Seq<u32>, base: int)
    requires
        base >= 2,
        digits.len() > 0,
        digits[0] != 0,
    ensures
        value_of_digits(digits, base) > 0,
    decreases digits.len(),
{
    let p = digits.drop_last();
    if p.len() == 0 {
        assert(digits.last() == digits[0]);
    } else {
        assert(p[0] == digits[0]);
        lemma_leading_nonzero_value_pos(p, base);
        lemma_mul_inequality(1, value_of_digits(p, base), base);
        lemma_mul_is_commutative(value_of_digits(p, base), base);
    }
}

/// On a sequence in canonical form (no leading zero, digits in range),
/// re-emitting the magnitude reproduces the sequence exactly.
pub proof fn lemma_canonical_of_value(digits: Seq<u32>, base: int)
    requires
        2 <= base <= 36,
        digits.len() > 0 ==> digits[0] != 0,
        forall|i: int| 0 <= i < digits.len() ==> digits[i] < base,
    ensures
        digits_of_value(value_of_digits(digits, base), base) == digits,
    decreases digits.len(),
{
    if digits.len() == 0 {
        assert(digits_of_value(0, base) =~= digits);
    } else {
        let p = digits.drop_last();
        let d = digits.last() as int;
        let vp = value_of_digits(p, base);
        let v = value_of_digits(digits, base);
        lemma_value_nonneg(p, base);
        lemma_leading_nonzero_value_pos(digits, base);
        assert(digits.last() == digits[digits.len() - 1]);
        lemma_mul_is_commutative(vp, base);
        lemma_fundamental_div_mod_converse_div(v, base, vp, d);
        lemma_fundamental_div_mod_converse_mod(v, base, vp, d);
        if p.len() > 0 {
            assert(p[0] == digits[0]);
        }
        lemma_canonical_of_value(p, base);
        assert(digits_of_value(v, base) == digits_of_value(vp, base).push(d as u32));
        assert(digits_of_value(vp, base).push(d as u32) =~= digits);
    }
}

/// Round trip through an intermediate radix: converting a digit sequence
/// to any radix and back yields the original sequence up to leading-zero
/// normalization. Stated over the spec-level conversion that
/// [`convert_integer_part`] is proved to return, with radix 10 as the
/// intermediate, this is exactly the library's round-trip-through-decimal
/// law.
pub proof fn lemma_integer_round_trip(digits: Seq<u32>, radix: int)
    requires
        2 <= radix <= 36,
        forall|i: int| 0 <= i < digits.len() ==> digits[i] < radix,
    ensures
        integer_conversion(integer_conversion(digits, radix, 10), 10, radix) == normalize_digits(
            digits,
        ),
{
    let v = value_of_digits(digits, radix);
    lemma_value_nonneg(digits, radix);
    lemma_strip_preserves_value(digits, radix);
    if v == 0 {
        lemma_zero_digit_value(10);
        lemma_zero_value_all_zero(digits, radix);
        lemma_strip_all_zero(digits);
    } else {
        lemma_value_of_canonical(v, 10);
        let stripped = strip_leading_zeros(digits);
        if stripped.len() == 0 {
            assert(value_of_digits(stripped, radix) == 0);
            assert(false);
        }
        lemma_strip_shape(digits, radix);
        lemma_canonical_of_value(stripped, radix);
    }
}

/// Zero identity: for all valid radices, both the empty sequence and the
/// one-digit sequence `[0]` convert to exactly `[0]`.
pub proof fn lemma_zero_identity(from: int, to: int)
    requires
        2 <= from <= 36,
        2 <= to <= 36,
    ensures
        integer_conversion(Seq::<u32>::empty(), from, to) == seq![0u32],
        integer_conversion(seq![0u32], from, to) == seq![0u32],
{
    lemma_zero_digit_value(from);
}

/// Converts an integer-part digit sequence from one radix to another.
///
/// The input is folded most-significant first into a single 128-bit
/// magnitude — wide enough for every input the supported radix and length
/// ranges produce, as the precondition records — and the magnitude is then
/// re-emitted in the target radix. A zero magnitude (the empty sequence or
/// any all-zero sequence) comes back as exactly `[0]`; any other result
/// carries no leading zero.
pub fn convert_integer_part(digits: &[u32], from_base: u32, to_base: u32) -> (result: Vec<u32>)
    requires
        2 <= from_base <= 36,
        2 <= to_base <= 36,
        forall|i: int| 0 <= i < digits@.len() ==> digits@[i] < from_base,
        value_of_digits(digits@, from_base as int) <= u128::MAX,
    ensures
        result@ == integer_conversion(digits@, from_base as int, to_base as int),
        result@.len() >= 1,
        forall|i: int| 0 <= i < result@.len() ==> result@[i] < to_base,
        value_of_digits(result@, to_base as int) == value_of_digits(digits@, from_base as int),
        result@[0] == 0 ==> result@ == seq![0u32],
{
    let ghost v_in = value_of_digits(digits@, from_base as int);
    if digits.len() == 0 || (digits.len() == 1 && digits[0] == 0) {
        proof {
            assert(value_of_digits(Seq::<u32>::empty(), from_base as int) == 0);
            if digits@.len() == 1 {
                assert(digits@.drop_last() =~= Seq::<u32>::empty());
                assert(digits@.last() == digits@[0]);
            }
            assert(v_in == 0);
            lemma_zero_digit_value(to_base as int);
        }
        let mut zero: Vec<u32> = Vec::new();
        zero.push(0u32);
        proof {
            assert(zero@ =~= seq![0u32]);
        }
        return zero;
    }
    let n = digits.len();
    let base = from_base as u128;
    let mut decimal: u128 = 0;
    let mut i: usize = 0;
    while i < n
        invariant
            n == digits@.len(),
            0 <= i <= n,
            2 <= from_base <= 36,
            forall|j: int| 0 <= j < digits@.len() ==> digits@[j] < from_base,
            value_of_digits(digits@, from_base as int) <= u128::MAX,
            base == from_base as u128,
            decimal == value_of_digits(digits@.take(i as int), from_base as int),
        decreases n - i,
    {
        proof {
            lemma_value_take_succ(digits@, from_base as int, i as int);
            lemma_value_take_le(digits@, from_base as int, i as int + 1);
            lemma_value_nonneg(digits@.take(i as int + 1), from_base as int);
        }
        decimal = decimal * base + digits[i] as u128;
        i += 1;
    }
    proof {
        assert(digits@.take(n as int) =~= digits@);
    }
    if decimal == 0 {
        proof {
            lemma_zero_digit_value(to_base as int);
        }
        let mut zero: Vec<u32> = Vec::new();
        zero.push(0u32);
        proof {
            assert(zero@ =~= seq![0u32]);
        }
        return zero;
    }
    let target = to_base as u128;
    let mut collected: Vec<u32> = Vec::new();
    let mut num = decimal;
    proof {
        assert(digits_of_value(v_in, to_base as int) =~= digits_of_value(num as int, to_base as int)
            + collected@.reverse());
    }
    while num > 0
        invariant
            2 <= to_base <= 36,
            target == to_base as u128,
            0 <= num <= u128::MAX,
            digits_of_value(v_in, to_base as int) == digits_of_value(num as int, to_base as int)
                + collected@.reverse(),
        decreases num,
    {
        proof {
            lemma_div_decreases(num as int, target as int);
            lemma_div_pos_is_pos(num as int, target as int);
            lemma_remainder_upper(num as int, target as int);
            lemma_remainder_lower(num as int, target as int);
            assert(digits_of_value((num / target) as int, to_base as int).push(
                (num % target) as u32,
            ) + collected@.reverse() =~= digits_of_value((num / target) as int, to_base as int)
                + collected@.push((num % target) as u32).reverse());
        }
        collected.push((num % target) as u32);
        num = num / target;
    }
    proof {
        assert(digits_of_value(v_in, to_base as int) =~= collected@.reverse());
    }
    let k = collected.len();
    let mut result: Vec<u32> = Vec::new();
    let mut j: usize = 0;
    while j < k
        invariant
            k == collected@.len(),
            0 <= j <= k,
            result@.len() == j,
            forall|m: int| 0 <= m < j ==> result@[m] == collected@[k - 1 - m],
        decreases k - j,
    {
        result.push(collected[k - 1 - j]);
        j += 1;
    }
    proof {
        assert(result@ =~= collected@.reverse());
        lemma_canonical_digits_in_range(v_in, to_base as int);
        lemma_canonical_no_leading_zero(v_in, to_base as int);
        lemma_value_of_canonical(v_in, to_base as int);
    }
    result
}

/// Reciprocal of the early-termination tolerance: the fractional
/// conversion stops once the remaining fraction falls below one part in
/// 10^15, to avoid emitting spurious trailing digits near a terminating
/// expansion.
pub const TOLERANCE_SCALE: u128 = 1000000000000000;

/// Target-radix digits of the exact fraction `num / den`, emitted by
/// repeated multiplication, at most `precision` of them. After each digit
/// the remaining fraction is tested: at exactly zero, or below one part
/// in 10^15, no further digits are emitted.
pub open spec fn fraction_digits(num: int, den: int, to: int, precision: nat) -> Seq<u32>
    decreases precision,
{
    if precision == 0 || num <= 0 {
        Seq::empty()
    } else {
        let scaled = num * to;
        let q = scaled / den;
        let r = scaled % den;
        if r * TOLERANCE_SCALE < den {
            seq![q as u32]
        } else {
            seq![q as u32] + fraction_digits(r, den, to, (precision - 1) as nat)
        }
    }
}

/// What the fractional converter returns: the digit sequence denotes the
/// fraction `value / from^len`, and that exact fraction is re-emitted in
/// the target radix under the precision bound and the tolerance rule.
pub open spec fn fractional_conversion(digits: Seq<u32>, from: int, to: int, precision: nat) -> Seq<
    u32,
> {
    fraction_digits(
        value_of_digits(digits, from),
        pow(from, digits.len() as nat),
        to,
        precision,
    )
}

/// Fractional bound: the conversion never emits more digits than the
/// caller's precision allows, whatever the fraction and the radices.
pub proof fn lemma_fraction_digits_len(num: int, den: int, to: int, precision: nat)
    ensures
        fraction_digits(num, den, to, precision).len() <= precision,
    decreases precision,
{
    if precision > 0 && num > 0 {
        let r = (num * to) % den;
        if !(r * TOLERANCE_SCALE < den) {
            lemma_fraction_digits_len(r, den, to, (precision - 1) as nat);
        }
    }
}

/// Converts a fractional-part digit sequence from one radix to another.
///
/// The input denotes the exact fraction `value / from_base^len`; that
/// fraction is held as an exact numerator over a fixed denominator and
/// re-emitted in the target radix: each step multiplies by the target
/// radix, emits the integer part, and keeps the remainder. At most
/// `precision` digits are emitted; emission stops early once the
/// remaining fraction is exactly zero or falls below one part in 10^15
/// (the termination heuristic for non-terminating expansions). The
/// precondition keeps the scaled denominator within 128 bits.
pub fn convert_fractional_part(
    digits: &[u32],
    from_base: u32,
    to_base: u32,
    precision: usize,
) -> (result: Vec<u32>)
    requires
        2 <= from_base <= 36,
        2 <= to_base <= 36,
        forall|i: int| 0 <= i < digits@.len() ==> digits@[i] < from_base,
        pow(from_base as int, digits@.len() as nat) * (to_base as int) <= u128::MAX,
    ensures
        result@ == fractional_conversion(
            digits@,
            from_base as int,
            to_base as int,
            precision as nat,
        ),
        result@.len() <= precision,
        digits@.len() == 0 ==> result@.len() == 0,
        forall|i: int| 0 <= i < result@.len() ==> result@[i] < to_base,
{
    let ghost from = from_base as int;
    let ghost to = to_base as int;
    if digits.len() == 0 {
        return Vec::new();
    }
    let n = digits.len();
    let base = from_base as u128;
    proof {
        lemma_pow_positive(from, n as nat);
        assert(pow(from, n as nat) * 1 <= pow(from, n as nat) * to) by {
            lemma_mul_inequality(1, to, pow(from, n as nat));
            lemma_mul_is_commutative(1, pow(from, n as nat));
            lemma_mul_is_commutative(to, pow(from, n as nat));
        }
        assert(pow(from, n as nat) <= u128::MAX);
    }
    let mut den: u128 = 1;
    let mut i: usize = 0;
    proof {
        reveal(pow);
    }
    while i < n
        invariant
            0 <= i <= n,
            2 <= from_base <= 36,
            base == from_base as u128,
            from == from_base as int,
            to == to_base as int,
            n == digits@.len(),
            pow(from, n as nat) * to <= u128::MAX,
            pow(from, n as nat) <= u128::MAX,
            den == pow(from, i as nat),
        decreases n - i,
    {
        proof {
            lemma_pow_increases(from_base as nat, (i + 1) as nat, n as nat);
            assert(pow(from, (i + 1) as nat) == from * pow(from, i as nat)) by {
                reveal(pow);
            }
            lemma_mul_is_commutative(from, pow(from, i as nat));
        }
        den = den * base;
        i += 1;
    }
    let mut num: u128 = 0;
    let mut j: usize = 0;
    while j < n
        invariant
            0 <= j <= n,
            2 <= from_base <= 36,
            base == from_base as u128,
            from == from_base as int,
            n == digits@.len(),
            forall|m: int| 0 <= m < digits@.len() ==> digits@[m] < from_base,
            pow(from, n as nat) <= u128::MAX,
            num == value_of_digits(digits@.take(j as int), from),
            num < pow(from, j as nat),
        decreases n - j,
    {
        proof {
            lemma_value_take_succ(digits@, from, j as int);
            lemma_value_upper_bound(digits@.take(j as int + 1), from);
            assert(digits@.take(j as int + 1).len() == j + 1);
            lemma_pow_increases(from_base as nat, (j + 1) as nat, n as nat);
            lemma_value_nonneg(digits@.take(j as int + 1), from);
        }
        num = num * base + digits[j] as u128;
        j += 1;
    }
    proof {
        assert(digits@.take(n as int) =~= digits@);
    }
    if num == 0 {
        return Vec::new();
    }
    let ghost v0 = num as int;
    let ghost d0 = den as int;
    proof {
        lemma_value_upper_bound(digits@, from);
    }
    let target = to_base as u128;
    let limit = u128::MAX / TOLERANCE_SCALE;
    let mut result: Vec<u32> = Vec::new();
    let mut k: usize = 0;
    let mut done = false;
    proof {
        assert(Seq::<u32>::empty() + fraction_digits(v0, d0, to, precision as nat)
            =~= fraction_digits(v0, d0, to, precision as nat));
    }
    while k < precision && !done
        invariant
            0 <= k <= precision,
            2 <= to_base <= 36,
            target == to_base as u128,
            to == to_base as int,
            limit == u128::MAX / TOLERANCE_SCALE,
            d0 == den as int,
            1 <= den,
            den as int * to <= u128::MAX,
            result@.len() <= precision,
            forall|m: int| 0 <= m < result@.len() ==> result@[m] < to_base,
            done ==> result@ == fraction_digits(v0, d0, to, precision as nat),
            !done ==> 1 <= num < den,
            !done ==> result@.len() == k,
            !done ==> result@ + fraction_digits(num as int, d0, to, (precision - k) as nat)
                == fraction_digits(v0, d0, to, precision as nat),
        decreases precision - k,
    {
        let ghost old_num = num as int;
        let ghost old_result = result@;
        let ghost rem = (precision - k) as nat;
        proof {
            assert(num * target <= (den - 1) * target) by {
                lemma_mul_inequality(num as int, den as int - 1, target as int);
            }
            assert((den - 1) * target < den as int * (target as int)) by {
                lemma_mul_strict_inequality(den as int - 1, den as int, target as int);
            }
        }
        let scaled = num * target;
        proof {
            lemma_multiply_divide_lt(scaled as int, d0, to);
            lemma_div_pos_is_pos(scaled as int, d0);
            lemma_mod_bound(scaled as int, d0);
        }
        let digit = (scaled / den) as u32;
        result.push(digit);
        num = scaled % den;
        k += 1;
        proof {
            // limit * TOLERANCE_SCALE stays within u128::MAX, so under the
            // guard `num <= limit` the product below cannot overflow
            lemma_fundamental_div_mod(u128::MAX as int, TOLERANCE_SCALE as int);
            lemma_mod_bound(u128::MAX as int, TOLERANCE_SCALE as int);
            assert(TOLERANCE_SCALE as int * (limit as int) == (limit as int) * (
            TOLERANCE_SCALE as int)) by {
                lemma_mul_is_commutative(TOLERANCE_SCALE as int, limit as int);
            }
            if num <= limit {
                lemma_mul_inequality(num as int, limit as int, TOLERANCE_SCALE as int);
            }
        }
        let below_tolerance = num <= limit && num * TOLERANCE_SCALE < den;
        proof {
            if num > limit {
                // num * TOLERANCE_SCALE >= (limit + 1) * TOLERANCE_SCALE > u128::MAX
                // >= den, so the remaining fraction is not below the tolerance
                lemma_mul_inequality(limit as int + 1, num as int, TOLERANCE_SCALE as int);
                assert((limit as int + 1) * (TOLERANCE_SCALE as int) == limit as int
                    * TOLERANCE_SCALE + TOLERANCE_SCALE) by {
                    lemma_mul_is_distributive_add(TOLERANCE_SCALE as int, limit as int, 1);
                    lemma_mul_is_commutative(TOLERANCE_SCALE as int, limit as int + 1);
                    lemma_mul_is_commutative(TOLERANCE_SCALE as int, limit as int);
                }
            }
            assert(below_tolerance == ((num as int * TOLERANCE_SCALE) < d0));
            assert(fraction_digits(old_num, d0, to, rem) == seq![digit] + (if below_tolerance {
                Seq::<u32>::empty()
            } else {
                fraction_digits(num as int, d0, to, (rem - 1) as nat)
            }));
        }
        if below_tolerance {
            done = true;
            proof {
                assert(seq![digit] + Seq::<u32>::empty() =~= seq![digit]);
                assert(result@ =~= old_result + seq![digit]);
                assert(result@ =~= fraction_digits(v0, d0, to, precision as nat));
            }
        } else {
            proof {
                assert(result@ =~= old_result + seq![digit]);
                assert((old_result + seq![digit]) + fraction_digits(
                    num as int,
                    d0,
                    to,
                    (rem - 1) as nat,
                ) =~= old_result + (seq![digit] + fraction_digits(
                    num as int,
                    d0,
                    to,
                    (rem - 1) as nat,
                )));
                // not below the tolerance, so the remainder is positive
                assert(num >= 1) by {
                    if num == 0 {
                        assert(num as int * TOLERANCE_SCALE == 0) by {
                            lemma_mul_is_commutative(num as int, TOLERANCE_SCALE as int);
                        }
                    }
                }
            }
        }
    }
    proof {
        if !done {
            assert(fraction_digits(num as int, d0, to, (precision - k) as nat)
                == Seq::<u32>::empty());
            assert(result@ + Seq::<u32>::empty() =~= result@);
        }
    }
    result
}

} // verus!
