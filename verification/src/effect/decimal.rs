//! The arithmetic behind the decimal output: how the digits of the powers
//! of two add up to the digits of a number.
use crate::generator::arith::bit_of;
use crate::generator::print::{
    carried_sum, decimal_digit, digit_sum, lemma_digit_sums_fit, lemma_pow10_values, pow10,
};
use vstd::arithmetic::div_mod::{lemma_div_denominator, lemma_mod_breakdown, lemma_small_mod};
use vstd::arithmetic::power2::{lemma2_to64, lemma_pow2_pos, lemma_pow2_unfold, pow2};
use vstd::bits::lemma_u32_shr_is_div;
use vstd::prelude::*;

verus! {

/// The value of the bits of `m` below bit `i`.
pub open spec fn low_value(m: u32, i: nat) -> nat
    decreases i,
{
    if i == 0 {
        0
    } else {
        low_value(m, (i - 1) as nat) + if bit_of(m, (i - 1) as u32) == 1 {
            pow2((i - 1) as nat)
        } else {
            0
        }
    }
}

/// What the scratch cell of decimal place `j` holds when the bits of `m`
/// below bit `i` have added their digits: digit `j` of `2^k`, summed over
/// the set bits `k` below `i`.
pub open spec fn gathered(m: u32, j: nat, i: nat) -> nat
    decreases i,
{
    if i == 0 {
        0
    } else {
        gathered(m, j, (i - 1) as nat) + if bit_of(m, (i - 1) as u32) == 1 {
            decimal_digit(pow2((i - 1) as nat), j)
        } else {
            0
        }
    }
}

/// What the scratch cell of decimal place `j` holds when its carry step
/// starts: what the bits of `m` have gathered there, and the quotient that
/// the place below handed up.
pub open spec fn carried(m: u32, j: nat) -> nat
    decreases j,
{
    if j == 0 {
        gathered(m, 0, 32)
    } else {
        gathered(m, j, 32) + carried(m, (j - 1) as nat) / 10
    }
}

/// A bit, read as a number, is the parity of the value shifted down.
proof fn lemma_bit_is_parity(m: u32, i: nat)
    requires
        i < 32,
    ensures
        bit_of(m, i as u32) == (m as nat / pow2(i)) % 2,
        pow2(i) > 0,
{
    lemma_u32_shr_is_div(m, i as u32);
    let y = m >> (i as u32);
    assert(y & 1 == y % 2) by (bit_vector);
    lemma_pow2_pos(i);
}

/// The bits below bit `i` hold the value modulo `2^i`: all 32 hold the value
/// itself.
pub proof fn lemma_low_value(m: u32, i: nat)
    requires
        i <= 32,
    ensures
        low_value(m, i) == m as nat % pow2(i),
        low_value(m, 32) == m,
    decreases 32 - i,
{
    lemma2_to64();
    lemma_low_value_below(m, 32);
    lemma_low_value_below(m, i);
    lemma_small_mod(m as nat, pow2(32));
}

/// The bits below bit `i` hold the value modulo `2^i`.
proof fn lemma_low_value_below(m: u32, i: nat)
    requires
        i <= 32,
    ensures
        low_value(m, i) == m as nat % pow2(i),
    decreases i,
{
    lemma2_to64();
    if i > 0 {
        let k = (i - 1) as nat;
        lemma_low_value_below(m, k);
        lemma_bit_is_parity(m, k);
        lemma_pow2_unfold(i);
        lemma_mod_breakdown(m as int, pow2(k) as int, 2);
        assert(pow2(k) * 2 == pow2(i));
        let b = (m as nat / pow2(k)) % 2;
        assert(pow2(k) * b == if b == 1 {
            pow2(k)
        } else {
            0
        }) by (nonlinear_arith)
            requires
                b == 0 || b == 1,
        ;
    }
}

/// A sum of digits over fewer bits is no more than the sum over all 32, and
/// what a number gathers is no more than what all bits together would.
pub proof fn lemma_gathered_bound(m: u32, j: nat, i: nat)
    requires
        i <= 32,
        j < 10,
    ensures
        gathered(m, j, i) <= digit_sum(j, i),
        digit_sum(j, i) <= digit_sum(j, 32),
        gathered(m, j, i) <= 255,
    decreases 32 - i,
{
    lemma_gathered_below(m, j, i);
    lemma_digit_sums_fit();
    if i < 32 {
        lemma_gathered_bound(m, j, i + 1);
    }
}

/// What a number gathers from the bits below `i` is no more than what all
/// of these bits together would.
proof fn lemma_gathered_below(m: u32, j: nat, i: nat)
    ensures
        gathered(m, j, i) <= digit_sum(j, i),
    decreases i,
{
    if i > 0 {
        lemma_gathered_below(m, j, (i - 1) as nat);
    }
}

/// No scratch cell wraps during the carries.
pub proof fn lemma_carried_bound(m: u32, j: nat)
    requires
        j < 10,
    ensures
        carried(m, j) <= carried_sum(j),
        carried(m, j) <= 255,
        j == 9 ==> carried(m, j) < 10,
    decreases j,
{
    lemma_digit_sums_fit();
    lemma_gathered_bound(m, j, 32);
    if j > 0 {
        lemma_carried_bound(m, (j - 1) as nat);
    }
}

/// The weighted sum of ten decimal places.
pub open spec fn places_value(p: spec_fn(nat) -> nat) -> nat {
    p(0) + 10 * p(1) + 100 * p(2) + 1000 * p(3) + 10000 * p(4) + 100000 * p(5) + 1000000 * p(6)
        + 10000000 * p(7) + 100000000 * p(8) + 1000000000 * p(9)
}

/// A number below `10^10` is the weighted sum of its ten digits.
pub proof fn lemma_digits_value(v: nat)
    requires
        v < 10000000000,
    ensures
        places_value(|j: nat| decimal_digit(v, j)) == v,
{
    lemma_pow10_values();
    let v1 = v / 10;
    let v2 = v1 / 10;
    let v3 = v2 / 10;
    let v4 = v3 / 10;
    let v5 = v4 / 10;
    let v6 = v5 / 10;
    let v7 = v6 / 10;
    let v8 = v7 / 10;
    let v9 = v8 / 10;
    assert(v1 == v / 10 && v2 == v / 100 && v3 == v / 1000 && v4 == v / 10000);
    assert(v5 == v / 100000 && v6 == v / 1000000 && v7 == v / 10000000);
    assert(v8 == v / 100000000 && v9 == v / 1000000000);
    assert(v9 < 10);
}

/// The scratch cells together hold the value of the bits that have added
/// their digits.
pub proof fn lemma_gathered_value(m: u32, i: nat)
    requires
        i <= 32,
    ensures
        places_value(|j: nat| gathered(m, j, i)) == low_value(m, i),
    decreases i,
{
    if i > 0 {
        let k = (i - 1) as nat;
        lemma_gathered_value(m, k);
        lemma2_to64();
        assert(pow2(k) < 10000000000) by {
            if k < 32 {
                vstd::arithmetic::power2::lemma_pow2_strictly_increases(k, 32);
            }
        }
        lemma_digits_value(pow2(k));
    }
}

/// After the carries the scratch cells hold the decimal digits of the
/// number: the remainders in the places 0 to 8, and in place 9 what was
/// carried there.
pub proof fn lemma_carried_digits(m: u32)
    ensures
        forall|j: nat| j < 9 ==> #[trigger] carried(m, j) % 10 == decimal_digit(m as nat, j),
        carried(m, 9) == decimal_digit(m as nat, 9),
{
    lemma_gathered_value(m, 32);
    lemma_low_value(m, 32);
    lemma_pow10_values();
    lemma_carried_bound(m, 9);
    reveal_with_fuel(carried, 10);
    let g = |j: nat| gathered(m, j, 32);
    assert(places_value(g) == m);
    let c0 = carried(m, 0);
    let c1 = carried(m, 1);
    let c2 = carried(m, 2);
    let c3 = carried(m, 3);
    let c4 = carried(m, 4);
    let c5 = carried(m, 5);
    let c6 = carried(m, 6);
    let c7 = carried(m, 7);
    let c8 = carried(m, 8);
    let c9 = carried(m, 9);
    let v = m as nat;
    assert(c0 == g(0) && c1 == g(1) + c0 / 10 && c2 == g(2) + c1 / 10 && c3 == g(3) + c2 / 10);
    assert(c4 == g(4) + c3 / 10 && c5 == g(5) + c4 / 10 && c6 == g(6) + c5 / 10);
    assert(c7 == g(7) + c6 / 10 && c8 == g(8) + c7 / 10 && c9 == g(9) + c8 / 10);
    // what lies above each place, as a number
    let r9 = c9;
    let r8 = c8 % 10 + 10 * r9;
    let r7 = c7 % 10 + 10 * r8;
    let r6 = c6 % 10 + 10 * r7;
    let r5 = c5 % 10 + 10 * r6;
    let r4 = c4 % 10 + 10 * r5;
    let r3 = c3 % 10 + 10 * r4;
    let r2 = c2 % 10 + 10 * r3;
    let r1 = c1 % 10 + 10 * r2;
    let r0 = c0 % 10 + 10 * r1;
    assert(r0 == v);
    assert(v / 10 == r1 && v % 10 == c0 % 10);
    assert(r1 / 10 == r2 && r1 % 10 == c1 % 10);
    assert(r2 / 10 == r3 && r2 % 10 == c2 % 10);
    assert(r3 / 10 == r4 && r3 % 10 == c3 % 10);
    assert(r4 / 10 == r5 && r4 % 10 == c4 % 10);
    assert(r5 / 10 == r6 && r5 % 10 == c5 % 10);
    assert(r6 / 10 == r7 && r6 % 10 == c6 % 10);
    assert(r7 / 10 == r8 && r7 % 10 == c7 % 10);
    assert(r8 / 10 == r9 && r8 % 10 == c8 % 10);
    assert(r1 == v / 10 && r2 == v / 100 && r3 == v / 1000 && r4 == v / 10000);
    assert(r5 == v / 100000 && r6 == v / 1000000 && r7 == v / 10000000);
    assert(r8 == v / 100000000 && r9 == v / 1000000000);
    assert(decimal_digit(v, 0) == c0 % 10);
    assert(decimal_digit(v, 1) == c1 % 10);
    assert(decimal_digit(v, 2) == c2 % 10);
    assert(decimal_digit(v, 3) == c3 % 10);
    assert(decimal_digit(v, 4) == c4 % 10);
    assert(decimal_digit(v, 5) == c5 % 10);
    assert(decimal_digit(v, 6) == c6 % 10);
    assert(decimal_digit(v, 7) == c7 % 10);
    assert(decimal_digit(v, 8) == c8 % 10);
    assert(decimal_digit(v, 9) == c9);
    assert forall|j: nat| j < 9 implies #[trigger] carried(m, j) % 10 == decimal_digit(v, j) by {
        assert(j == 0 || j == 1 || j == 2 || j == 3 || j == 4 || j == 5 || j == 6 || j == 7 || j
            == 8);
    }
}

/// The decimal digits of `m` as text, the highest first, without leading
/// zeros: one digit for a number below 10.
pub open spec fn decimal(m: nat) -> Seq<u8>
    decreases m,
{
    if m < 10 {
        seq![(48 + m) as u8]
    } else {
        decimal(m / 10).push((48 + m % 10) as u8)
    }
}

/// Whether `x`, read as a signed number, is negative: whether its top bit is
/// set.
pub open spec fn is_negative(x: u32) -> bool {
    bit_of(x, 31) == 1
}

/// The absolute value of `x` read as a signed number.
pub open spec fn magnitude(x: u32) -> u32 {
    if is_negative(x) {
        ((!x) + 1) as u32
    } else {
        x
    }
}

/// The decimal text of `x` read as a signed number: a minus sign if it is
/// negative, and the digits of its absolute value.
pub open spec fn signed_decimal(x: u32) -> Seq<u8> {
    if is_negative(x) {
        seq![45u8] + decimal(magnitude(x) as nat)
    } else {
        decimal(x as nat)
    }
}

/// The text of the digits of `m` in decimal place `k` and above, without
/// leading zeros: nothing if `m` has no digit there.
pub open spec fn leading(m: nat, k: nat) -> Seq<u8> {
    if m / pow10(k) == 0 {
        Seq::empty()
    } else {
        decimal(m / pow10(k))
    }
}

/// A power of ten is positive.
pub proof fn lemma_pow10_pos(k: nat)
    ensures
        pow10(k) > 0,
    decreases k,
{
    if k > 0 {
        lemma_pow10_pos((k - 1) as nat);
    }
}

/// The digits from place `k` up are those from place `k + 1` up and the
/// digit of place `k`; there are none if that digit is 0 and there are none
/// above it.
pub proof fn lemma_leading_step(m: nat, k: nat)
    ensures
        m / pow10(k) == 0 <==> decimal_digit(m, k) == 0 && m / pow10(k + 1) == 0,
        m / pow10(k) != 0 ==> leading(m, k) == leading(m, k + 1).push(
            (48 + decimal_digit(m, k)) as u8,
        ),
        decimal_digit(m, k) < 10,
{
    lemma_pow10_pos(k);
    lemma_div_denominator(m as int, pow10(k) as int, 10);
    assert(pow10(k + 1) == pow10(k) * 10) by {
        reveal_with_fuel(pow10, 2);
    }
    let upper = m / pow10(k);
    assert(upper / 10 == m / pow10(k + 1));
    if upper != 0 && upper < 10 {
        assert(leading(m, k + 1).push((48 + upper % 10) as u8) =~= seq![(48 + upper) as u8]);
    }
}

/// The whole text is the digits from place 1 up and the digit of place 0,
/// and a number below `10^10` has no digit in place 10.
pub proof fn lemma_leading_ends(m: nat)
    ensures
        decimal(m) == leading(m, 1).push((48 + decimal_digit(m, 0)) as u8),
        m < 10000000000 ==> leading(m, 10) == Seq::<u8>::empty(),
{
    lemma_pow10_values();
    if m < 10 {
        assert(leading(m, 1).push((48 + m % 10) as u8) =~= seq![(48 + m) as u8]);
    }
}

/// The top bit of a number is its sign, and the magnitude of a negative
/// number is the number negated.
pub proof fn lemma_sign(a: i32)
    ensures
        is_negative(a as u32) <==> a < 0,
        magnitude(a as u32) == if a < 0 {
            -(a as int)
        } else {
            a as int
        },
{
    let x = a as u32;
    assert(((a as u32) >> 31u32) & 1 == 1 <==> a < 0) by (bit_vector);
    if a < 0 {
        assert(((!(a as u32)) + 1) as u32 == -(a as int)) by (bit_vector)
            requires
                a < 0,
        ;
    }
}

} // verus!
