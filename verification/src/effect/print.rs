//! What the decimal output does when its code runs on the tape machine.
use crate::command::BfCmd;
use crate::effect::arith::{holds, lemma_bits, lemma_not_complements, lemma_with_value, with_value};
use crate::effect::decimal::{
    carried, decimal, gathered, is_negative, leading, lemma_carried_bound, lemma_carried_digits,
    lemma_gathered_bound, lemma_leading_ends, lemma_leading_step, lemma_pow10_pos, magnitude,
    signed_decimal,
};
use crate::effect::divmod::{dividing, lemma_divmod_divides};
use crate::effect::increment::{incremented, lemma_incs_increments};
use crate::effect::{
    lemma_runs_add, lemma_runs_move, lemma_runs_put, lemma_runs_set, lemma_runs_transfer,
    lemma_runs_transfer_twice, lemma_while_once, lemma_while_skip, transferred, transferred_twice,
};
use crate::generator::arith::{bit_of, not_code, seq_down, seq_up};
use crate::generator::control::{incs_code, set_code, while_code};
use crate::generator::print::{
    carry_step, decimal_digit, digits_code, divmod_code, gather_step, last_digit_code,
    lemma_pow10_values, negate_code, output_step, pow10, print_code, sign_code, write_digit_code,
};
use crate::generator::{add_code, move_code, put_code};
use crate::machine::{lemma_runs_balanced, lemma_runs_concat, lemma_runs_empty, runs, wrap, Machine};
use vstd::arithmetic::div_mod::lemma_div_denominator;
use vstd::arithmetic::power2::{lemma2_to64, lemma_pow2_strictly_increases, pow2};
use vstd::prelude::*;

verus! {

/// Whether the 30 scratch cells behind the value with its head in cell
/// `head` all hold 0.
pub open spec fn scratch_clear(s: Machine, head: int) -> bool {
    forall|c: int| head + 33 <= c <= head + 62 ==> #[trigger] (s.tape)(c) == 0
}

/// The state `s` with more output.
pub open spec fn with_output(s: Machine, text: Seq<u8>) -> Machine {
    Machine { output: s.output + text, ..s }
}

/// What runs while the top bit is set negates the value and writes a minus
/// sign; a top bit that is still set, as for the least value, is moved
/// aside.
#[verifier::rlimit(50)]
proof fn lemma_print_negate(s: Machine, x: u32)
    requires
        holds(s, s.ptr, x),
        scratch_clear(s, s.ptr),
        is_negative(x),
    ensures
        runs(
            negate_code(),
            s,
            transferred(with_output(with_value(s, s.ptr, magnitude(x)), seq![45u8]), 32, 34),
        ),
{
    let head = s.ptr;
    let m = magnitude(x);
    lemma_bits(x);
    lemma_bits(!x);
    lemma_bits(m);
    // the minus sign
    let a1 = s.added(33, 45);
    lemma_runs_add(33, 45, s);
    assert((s.tape)(head + 33) == 0);
    let a2 = Machine { output: a1.output.push(a1.slot(33)), ..a1 };
    lemma_runs_put(33, a1);
    let a3 = a2.with_cell(a2.ptr + 33, 0);
    lemma_runs_set(33, 0, a2);
    let signed = with_output(s, seq![45u8]);
    assert(a3.output =~= signed.output);
    assert(a3.tape =~= signed.tape);
    assert(a3 =~= signed);
    // the complement
    let a4 = signed.moved(33);
    lemma_runs_move(33, signed);
    lemma_not_complements(a4, x);
    let a5 = with_value(a4, head, !x);
    let a6 = a5.moved(-33);
    lemma_runs_move(-33, a5);
    // one added
    let a7 = a6.added(0, -1);
    lemma_runs_add(0, -1, a6);
    assert forall|c: int| a7.ptr + 1 <= c < a7.ptr + 1 + 32 implies #[trigger] (a7.tape)(c)
        == bit_of(!x, (c - a7.ptr - 1) as u32) by {
        assert(bit_of(!x, (c - head - 1) as u32) <= 1);
    }
    assert((s.tape)(head + 33) == 0);
    lemma_incs_increments(1, a7, !x);
    assert(a7.moved(0) =~= a7);
    assert(incremented(a7.moved(0), !x).moved(0) =~= incremented(a7, !x));
    let a8 = incremented(a7, !x);
    assert(x != 0) by {
        assert(bit_of(x, 31) == 1 ==> x != 0) by (bit_vector);
    }
    assert(!x != 0xffff_ffff) by {
        assert(x != 0 ==> !x != 0xffff_ffff) by (bit_vector);
    }
    let a9 = a8.added(0, 1);
    lemma_runs_add(0, 1, a8);
    let negated = with_output(with_value(s, head, m), seq![45u8]);
    assert forall|c: int| #[trigger] (a9.tape)(c) == (negated.tape)(c) by {
        if head < c <= head + 32 {
            assert(bit_of(m, (c - head - 1) as u32) <= 1);
        }
    }
    assert(a9.tape =~= negated.tape);
    assert(a9 =~= negated);
    // a top bit that is still set
    lemma_runs_transfer(32, 34, negated);
    let a10 = transferred(negated, 32, 34);
    lemma_runs_concat(add_code(33, 45), put_code(33), s, a1, a2);
    lemma_runs_concat(add_code(33, 45) + put_code(33), set_code(33, 0), s, a2, signed);
    lemma_runs_concat(
        add_code(33, 45) + put_code(33) + set_code(33, 0),
        move_code(33),
        s,
        signed,
        a4,
    );
    lemma_runs_concat(
        add_code(33, 45) + put_code(33) + set_code(33, 0) + move_code(33),
        not_code(),
        s,
        a4,
        a5,
    );
    lemma_runs_concat(
        add_code(33, 45) + put_code(33) + set_code(33, 0) + move_code(33) + not_code(),
        move_code(-33),
        s,
        a5,
        a6,
    );
    lemma_runs_concat(
        add_code(33, 45) + put_code(33) + set_code(33, 0) + move_code(33) + not_code() + move_code(
            -33,
        ),
        add_code(0, -1),
        s,
        a6,
        a7,
    );
    lemma_runs_concat(
        add_code(33, 45) + put_code(33) + set_code(33, 0) + move_code(33) + not_code() + move_code(
            -33,
        ) + add_code(0, -1),
        incs_code(1),
        s,
        a7,
        a8,
    );
    lemma_runs_concat(
        add_code(33, 45) + put_code(33) + set_code(33, 0) + move_code(33) + not_code() + move_code(
            -33,
        ) + add_code(0, -1) + incs_code(1),
        add_code(0, 1),
        s,
        a8,
        negated,
    );
    lemma_runs_concat(
        add_code(33, 45) + put_code(33) + set_code(33, 0) + move_code(33) + not_code() + move_code(
            -33,
        ) + add_code(0, -1) + incs_code(1) + add_code(0, 1),
        while_code(32, add_code(32, -1) + add_code(34, 1)),
        s,
        negated,
        a10,
    );
}

/// The state after the sign has been handled: the magnitude of `x` where
/// `x` was, and a minus sign written if `x` is negative.
pub open spec fn signed(s: Machine, x: u32) -> Machine {
    with_output(
        with_value(s, s.ptr, magnitude(x)),
        if is_negative(x) {
            seq![45u8]
        } else {
            Seq::empty()
        },
    )
}

/// The sign handling is correct: started on the head of a value `x` with
/// clear scratch cells behind it, it writes a minus sign if `x` is negative,
/// and leaves the magnitude of `x`.
pub proof fn lemma_print_sign(s: Machine, x: u32)
    requires
        holds(s, s.ptr, x),
        scratch_clear(s, s.ptr),
    ensures
        runs(sign_code(), s, signed(s, x)),
{
    let head = s.ptr;
    let m = magnitude(x);
    let back = add_code(34, -1) + add_code(32, 1);
    lemma_bits(x);
    lemma_bits(m);
    assert((s.tape)(head + 32) == bit_of(x, ((head + 32) - head - 1) as u32));
    assert((s.tape)(head + 34) == 0);
    let goal = signed(s, x);
    if is_negative(x) {
        lemma_print_negate(s, x);
        let negated = with_output(with_value(s, head, m), seq![45u8]);
        let aside = transferred(negated, 32, 34);
        lemma_while_once(32, negate_code(), s, aside);
        lemma_runs_transfer(34, 32, aside);
        let end = transferred(aside, 34, 32);
        lemma_runs_concat(while_code(32, negate_code()), while_code(34, back), s, aside, end);
        assert forall|c: int| #[trigger] (end.tape)(c) == (goal.tape)(c) by {
            if c == head + 32 {
                assert(bit_of(m, ((head + 32) - head - 1) as u32) <= 1);
            }
        }
        assert(end.tape =~= goal.tape);
        assert(end.output =~= goal.output);
        assert(end =~= goal);
    } else {
        // the loop on the top bit has matching brackets whether or not it runs
        let probe = with_value(s, head, 0x8000_0000);
        lemma_with_value(s, head, 0x8000_0000);
        assert(is_negative(0x8000_0000)) by (bit_vector);
        assert forall|c: int| head + 33 <= c <= head + 62 implies #[trigger] (probe.tape)(c)
            == 0 by {
            assert((s.tape)(c) == 0);
        }
        lemma_print_negate(probe, 0x8000_0000);
        lemma_runs_balanced(
            negate_code(),
            probe,
            transferred(
                with_output(with_value(probe, head, magnitude(0x8000_0000)), seq![45u8]),
                32,
                34,
            ),
        );
        lemma_while_skip(32, negate_code(), s);
        lemma_runs_transfer(34, 32, s);
        let end = transferred(s, 34, 32);
        lemma_runs_concat(while_code(32, negate_code()), while_code(34, back), s, s, end);
        lemma_with_value(s, head, x);
        assert(end.tape =~= goal.tape);
        assert(end.output =~= goal.output);
        assert(end =~= goal);
    }
}

/// Whether cell `c` is the scratch cell of a decimal place, for a value
/// with its head in cell `head`: the cells of the ten places lie three
/// apart, the first 33 cells behind the head.
pub open spec fn is_place(head: int, c: int) -> bool {
    head + 33 <= c <= head + 60 && (c - head - 33) % 3 == 0
}

/// The decimal place whose scratch cell is cell `c`.
pub open spec fn place_of(head: int, c: int) -> int {
    (c - head - 33) / 3
}

/// The state after the digits of `v` have been added to the scratch cells
/// of the decimal places from place `from` up.
pub open spec fn digits_added(s: Machine, v: nat, from: int) -> Machine {
    Machine {
        tape: |c: int|
            if is_place(s.ptr, c) && place_of(s.ptr, c) >= from {
                wrap(s.at(c) + decimal_digit(v, (place_of(s.ptr, c) - from) as nat))
            } else {
                s.at(c)
            },
        ..s
    }
}

/// Digit `k` of a number without its lowest digit is digit `k + 1` of the
/// number.
proof fn lemma_digit_shift(v: nat, k: nat)
    ensures
        decimal_digit(v / 10, k) == decimal_digit(v, k + 1),
        decimal_digit(v, 0) == v % 10,
        decimal_digit(0, k) == 0,
{
    lemma_pow10_pos(k);
    lemma_div_denominator(v as int, 10, pow10(k) as int);
    assert(pow10(k + 1) == 10 * pow10(k)) by {
        reveal_with_fuel(pow10, 2);
    }
    assert(pow10(0) == 1);
}

/// The commands that add the digits of a number do so: `digits_code(v,
/// from)` adds digit `k` of `v` to the scratch cell of place `from + k`.
pub proof fn lemma_runs_digits(s: Machine, v: nat, from: int)
    requires
        0 <= from <= 10,
        v < pow10((10 - from) as nat),
    ensures
        runs(digits_code(v, from), s, digits_added(s, v, from)),
    decreases v,
{
    let goal = digits_added(s, v, from);
    if v == 0 {
        lemma_runs_empty(s);
        assert forall|c: int| #[trigger] (goal.tape)(c) == (s.tape)(c) by {
            if is_place(s.ptr, c) && place_of(s.ptr, c) >= from {
                lemma_digit_shift(0, (place_of(s.ptr, c) - from) as nat);
            }
        }
        assert(goal.tape =~= s.tape);
        assert(goal =~= s);
    } else {
        assert(from < 10) by {
            assert(pow10(0) == 1);
        }
        assert(pow10((10 - from) as nat) == 10 * pow10((10 - from - 1) as nat)) by {
            reveal_with_fuel(pow10, 2);
        }
        let first = s.added(33 + 3 * from, (v % 10) as int);
        lemma_runs_add(33 + 3 * from, (v % 10) as int, s);
        lemma_runs_digits(first, v / 10, from + 1);
        let end = digits_added(first, v / 10, from + 1);
        lemma_runs_concat(
            add_code(33 + 3 * from, (v % 10) as int),
            digits_code(v / 10, from + 1),
            s,
            first,
            end,
        );
        assert forall|c: int| #[trigger] (end.tape)(c) == (goal.tape)(c) by {
            if is_place(s.ptr, c) && place_of(s.ptr, c) >= from {
                let j = place_of(s.ptr, c);
                if j == from {
                    lemma_digit_shift(v, 0);
                } else {
                    lemma_digit_shift(v, (j - from - 1) as nat);
                }
            }
        }
        assert(end.tape =~= goal.tape);
        assert(end =~= goal);
    }
}

/// The tape while the digits are gathered, when the bits of `m` below bit
/// `i` are done: their cells hold 0, and the scratch cell of each decimal
/// place holds what they have gathered there.
pub open spec fn gathering(s: Machine, m: u32, i: int) -> Machine {
    Machine {
        tape: |c: int|
            if s.ptr < c <= s.ptr + i {
                0u8
            } else if is_place(s.ptr, c) {
                gathered(m, place_of(s.ptr, c) as nat, i as nat) as u8
            } else {
                s.at(c)
            },
        ..s
    }
}

/// Gathering the digits of the bits from 0 up to `i - 1`.
pub proof fn lemma_print_gather(s: Machine, m: u32, i: int)
    requires
        holds(s, s.ptr, m),
        scratch_clear(s, s.ptr),
        0 <= i <= 32,
    ensures
        runs(seq_up(0, i, |i: int| gather_step(i)), s, gathering(s, m, i)),
    decreases i,
{
    let head = s.ptr;
    let goal = gathering(s, m, i);
    lemma_bits(m);
    if i == 0 {
        lemma_runs_empty(s);
        assert forall|c: int| #[trigger] (goal.tape)(c) == (s.tape)(c) by {
            if is_place(head, c) {
                assert((s.tape)(c) == 0);
            }
        }
        assert(goal.tape =~= s.tape);
        assert(goal =~= s);
    } else {
        let k = i - 1;
        lemma_print_gather(s, m, k);
        let before = gathering(s, m, k);
        let body = add_code(1 + k, -1) + digits_code(pow2(k as nat), 0);
        let lowered = before.added(1 + k, -1);
        lemma_runs_add(1 + k, -1, before);
        lemma2_to64();
        lemma_pow10_values();
        assert(pow2(k as nat) < pow10(10)) by {
            if k < 31 {
                lemma_pow2_strictly_increases(k as nat, 31);
            }
        }
        lemma_runs_digits(lowered, pow2(k as nat), 0);
        let added = digits_added(lowered, pow2(k as nat), 0);
        lemma_runs_concat(
            add_code(1 + k, -1),
            digits_code(pow2(k as nat), 0),
            before,
            lowered,
            added,
        );
        assert(before.slot(1 + k) == bit_of(m, k as u32)) by {
            assert((s.tape)(head + 1 + k) == bit_of(m, ((head + 1 + k) - head - 1) as u32));
        }
        let end = if bit_of(m, k as u32) == 1 {
            added
        } else {
            before
        };
        if bit_of(m, k as u32) == 1 {
            lemma_while_once(1 + k, body, before, added);
        } else {
            lemma_runs_balanced(body, before, added);
            lemma_while_skip(1 + k, body, before);
        }
        lemma_runs_concat(seq_up(0, k, |i: int| gather_step(i)), gather_step(k), s, before, end);
        assert forall|c: int| #[trigger] (end.tape)(c) == (goal.tape)(c) by {
            if is_place(head, c) {
                lemma_gathered_bound(m, place_of(head, c) as nat, i as nat);
                lemma_gathered_bound(m, place_of(head, c) as nat, k as nat);
            }
        }
        assert(end.tape =~= goal.tape);
        assert(end =~= goal);
    }
}

/// The tape during the carries, when the decimal places below `upto` are
/// done: their scratch cells hold their digits, the cell of place `upto`
/// holds what was gathered there and what was carried into it, and the cells
/// of the places above hold what was gathered there.
pub open spec fn carrying(s: Machine, m: u32, upto: int) -> Machine {
    Machine {
        tape: |c: int|
            if is_place(s.ptr, c) {
                if place_of(s.ptr, c) < upto {
                    (carried(m, place_of(s.ptr, c) as nat) % 10) as u8
                } else if place_of(s.ptr, c) == upto {
                    carried(m, place_of(s.ptr, c) as nat) as u8
                } else {
                    gathered(m, place_of(s.ptr, c) as nat, 32) as u8
                }
            } else {
                s.at(c)
            },
        ..s
    }
}

/// The carry steps of the decimal places from 0 up to `upto - 1`.
#[verifier::rlimit(50)]
pub proof fn lemma_print_carry(s: Machine, m: u32, upto: int)
    requires
        0 <= upto <= 9,
        forall|c: int|
            s.ptr + 33 <= c <= s.ptr + 62 && !is_place(s.ptr, c) ==> #[trigger] (s.tape)(c) == 0,
        forall|c: int|
            is_place(s.ptr, c) ==> #[trigger] (s.tape)(c) == gathered(
                m,
                place_of(s.ptr, c) as nat,
                32,
            ),
    ensures
        runs(seq_up(0, upto, |j: int| carry_step(j)), s, carrying(s, m, upto)),
    decreases upto,
{
    let head = s.ptr;
    let goal = carrying(s, m, upto);
    if upto == 0 {
        lemma_runs_empty(s);
        assert forall|c: int| #[trigger] (goal.tape)(c) == (s.tape)(c) by {
            if is_place(head, c) {
                lemma_gathered_bound(m, place_of(head, c) as nat, 32);
                lemma_carried_bound(m, 0);
            }
        }
        assert(goal.tape =~= s.tape);
        assert(goal =~= s);
    } else {
        let j = upto - 1;
        lemma_print_carry(s, m, j);
        let before = carrying(s, m, j);
        let n = carried(m, j as nat);
        let q = gathered(m, upto as nat, 32);
        lemma_carried_bound(m, j as nat);
        lemma_carried_bound(m, upto as nat);
        lemma_gathered_bound(m, upto as nat, 32);
        assert(is_place(head, head + 33 + 3 * j) && place_of(head, head + 33 + 3 * j) == j);
        assert(is_place(head, head + 36 + 3 * j) && place_of(head, head + 36 + 3 * j) == upto);
        assert(!is_place(head, head + 34 + 3 * j) && !is_place(head, head + 35 + 3 * j));
        assert(!is_place(head, head + 37 + 3 * j) && !is_place(head, head + 38 + 3 * j));
        assert((s.tape)(head + 34 + 3 * j) == 0 && (s.tape)(head + 35 + 3 * j) == 0);
        assert((s.tape)(head + 37 + 3 * j) == 0 && (s.tape)(head + 38 + 3 * j) == 0);
        // the divisor
        let b1 = before.added(34 + 3 * j, 10);
        lemma_runs_add(34 + 3 * j, 10, before);
        let b2 = b1.moved(33 + 3 * j);
        lemma_runs_move(33 + 3 * j, b1);
        // the division
        assert(carried(m, upto as nat) == q + n / 10);
        lemma_divmod_divides(b2, q as int);
        let b3 = dividing(b2, 0, n as int % 10, (q + n / 10) as int);
        let b4 = b3.moved(-(33 + 3 * j));
        lemma_runs_move(-(33 + 3 * j), b3);
        // the divisor cleared, the remainder moved back
        let b5 = b4.with_cell(b4.ptr + (34 + 3 * j), 0);
        lemma_runs_set(34 + 3 * j, 0, b4);
        let end = transferred(b5, 35 + 3 * j, 33 + 3 * j);
        lemma_runs_transfer(35 + 3 * j, 33 + 3 * j, b5);
        lemma_runs_concat(add_code(34 + 3 * j, 10), move_code(33 + 3 * j), before, b1, b2);
        lemma_runs_concat(
            add_code(34 + 3 * j, 10) + move_code(33 + 3 * j),
            divmod_code(),
            before,
            b2,
            b3,
        );
        lemma_runs_concat(
            add_code(34 + 3 * j, 10) + move_code(33 + 3 * j) + divmod_code(),
            move_code(-(33 + 3 * j)),
            before,
            b3,
            b4,
        );
        lemma_runs_concat(
            add_code(34 + 3 * j, 10) + move_code(33 + 3 * j) + divmod_code() + move_code(
                -(33 + 3 * j),
            ),
            set_code(34 + 3 * j, 0),
            before,
            b4,
            b5,
        );
        lemma_runs_concat(
            add_code(34 + 3 * j, 10) + move_code(33 + 3 * j) + divmod_code() + move_code(
                -(33 + 3 * j),
            ) + set_code(34 + 3 * j, 0),
            while_code(35 + 3 * j, add_code(35 + 3 * j, -1) + add_code(33 + 3 * j, 1)),
            before,
            b5,
            end,
        );
        lemma_runs_concat(seq_up(0, j, |j: int| carry_step(j)), carry_step(j), s, before, end);
        assert(end.tape =~= goal.tape);
        assert(end =~= goal);
    }
}

/// The tape and the output during the output of the digits, when the
/// decimal places from 9 down to `from` are done: their cells hold 0, the
/// mark of the place below `from` is set if a digit has been written, and
/// the digits of `m` from place `from` up are written, without leading
/// zeros.
pub open spec fn printing(s: Machine, m: u32, from: int) -> Machine {
    Machine {
        tape: |c: int|
            if s.ptr + 33 + 3 * from <= c <= s.ptr + 62 {
                0u8
            } else if c == s.ptr + 31 + 3 * from {
                if m as nat / pow10(from as nat) != 0 {
                    1u8
                } else {
                    0u8
                }
            } else {
                s.at(c)
            },
        output: s.output + leading(m as nat, from as nat),
        ..s
    }
}

/// What the output of place `j` does if its mark is set: the mark is
/// cleared and passed on to the place below, and the digit is written.
proof fn lemma_print_write_digit(s: Machine, j: int)
    requires
        1 <= j <= 9,
        s.slot(34 + 3 * j) != 0,
        s.slot(31 + 3 * j) == 0,
        s.slot(35 + 3 * j) < 10,
    ensures
        runs(
            write_digit_code(j),
            s,
            Machine {
                output: s.output.push((48 + s.slot(35 + 3 * j)) as u8),
                ..s.with_cell(s.ptr + 34 + 3 * j, 0).with_cell(s.ptr + 31 + 3 * j, 1).with_cell(
                    s.ptr + 35 + 3 * j,
                    0,
                )
            },
        ),
{
    let t1 = 34 + 3 * j;
    let t2 = 35 + 3 * j;
    let s1 = 31 + 3 * j;
    let d = s.slot(t2);
    let pass = set_code(t1, 0) + add_code(s1, 1);
    let c1 = s.with_cell(s.ptr + t1, 0);
    lemma_runs_set(t1, 0, s);
    let c2 = c1.added(s1, 1);
    lemma_runs_add(s1, 1, c1);
    lemma_runs_concat(set_code(t1, 0), add_code(s1, 1), s, c1, c2);
    lemma_while_once(t1, pass, s, c2);
    let c3 = c2.added(t2, 48);
    lemma_runs_add(t2, 48, c2);
    let c4 = Machine { output: c3.output.push(c3.slot(t2)), ..c3 };
    lemma_runs_put(t2, c3);
    let c5 = c4.with_cell(c4.ptr + t2, 0);
    lemma_runs_set(t2, 0, c4);
    lemma_runs_concat(while_code(t1, pass), add_code(t2, 48), s, c2, c3);
    lemma_runs_concat(while_code(t1, pass) + add_code(t2, 48), put_code(t2), s, c3, c4);
    lemma_runs_concat(
        while_code(t1, pass) + add_code(t2, 48) + put_code(t2),
        set_code(t2, 0),
        s,
        c4,
        c5,
    );
    let goal = Machine {
        output: s.output.push((48 + d) as u8),
        ..s.with_cell(s.ptr + t1, 0).with_cell(s.ptr + s1, 1).with_cell(s.ptr + t2, 0)
    };
    assert(c5.tape =~= goal.tape);
    assert(c5 =~= goal);
}

/// The output of the decimal places from 9 down to `from`.
#[verifier::rlimit(50)]
pub proof fn lemma_print_output(s: Machine, m: u32, from: int)
    requires
        1 <= from <= 10,
        forall|c: int|
            s.ptr + 33 <= c <= s.ptr + 62 && !is_place(s.ptr, c) ==> #[trigger] (s.tape)(c) == 0,
        forall|c: int|
            is_place(s.ptr, c) ==> #[trigger] (s.tape)(c) == decimal_digit(
                m as nat,
                place_of(s.ptr, c) as nat,
            ),
    ensures
        runs(seq_down(from, 10, |j: int| output_step(j)), s, printing(s, m, from)),
    decreases 10 - from,
{
    let head = s.ptr;
    let goal = printing(s, m, from);
    lemma_pow10_values();
    if from == 10 {
        lemma_runs_empty(s);
        lemma_leading_ends(m as nat);
        assert(!is_place(head, head + 61));
        assert((s.tape)(head + 61) == 0);
        assert(goal.tape =~= s.tape);
        assert(goal.output =~= s.output);
        assert(goal =~= s);
    } else {
        let j = from;
        lemma_print_output(s, m, j + 1);
        let before = printing(s, m, j + 1);
        let t0 = 33 + 3 * j;
        let t1 = 34 + 3 * j;
        let t2 = 35 + 3 * j;
        let d = decimal_digit(m as nat, j as nat);
        lemma_leading_step(m as nat, j as nat);
        assert(is_place(head, head + t0) && place_of(head, head + t0) == j);
        assert(!is_place(head, head + t1) && !is_place(head, head + t2));
        assert(!is_place(head, head + 31 + 3 * j));
        assert((s.tape)(head + t0) == d);
        assert((s.tape)(head + t2) == 0);
        assert((s.tape)(head + 31 + 3 * j) == 0);
        // the digit moved into the mark and the cell to write from
        let split = transferred_twice(before, t0, t1, t2);
        lemma_runs_transfer_twice(t0, t1, t2, before);
        let written = Machine {
            output: split.output.push((48 + split.slot(t2)) as u8),
            ..split.with_cell(split.ptr + 34 + 3 * j, 0).with_cell(
                split.ptr + 31 + 3 * j,
                1,
            ).with_cell(split.ptr + 35 + 3 * j, 0)
        };
        let end = if split.slot(t1) != 0 {
            written
        } else {
            split
        };
        if split.slot(t1) != 0 {
            lemma_print_write_digit(split, j);
            lemma_while_once(t1, write_digit_code(j), split, written);
        } else {
            let probe = split.with_cell(split.ptr + t1, 1);
            lemma_print_write_digit(probe, j);
            lemma_runs_balanced(
                write_digit_code(j),
                probe,
                Machine {
                    output: probe.output.push((48 + probe.slot(35 + 3 * j)) as u8),
                    ..probe.with_cell(probe.ptr + 34 + 3 * j, 0).with_cell(
                        probe.ptr + 31 + 3 * j,
                        1,
                    ).with_cell(probe.ptr + 35 + 3 * j, 0)
                },
            );
            lemma_while_skip(t1, write_digit_code(j), split);
        }
        lemma_runs_concat(
            while_code(t0, add_code(t0, -1) + add_code(t1, 1) + add_code(t2, 1)),
            while_code(t1, write_digit_code(j)),
            before,
            split,
            end,
        );
        lemma_runs_concat(
            seq_down(j + 1, 10, |j: int| output_step(j)),
            output_step(j),
            s,
            before,
            end,
        );
        assert(end.tape =~= goal.tape);
        assert(end.output =~= goal.output);
        assert(end =~= goal);
    }
}

/// The state after a value `x` has been written in decimal: the text of
/// `x` added to the output, 0 in every cell of the value, and the pointer on
/// its former head.
pub open spec fn printed(s: Machine, x: u32) -> Machine {
    Machine {
        tape: |c: int|
            if s.ptr - 33 <= c < s.ptr {
                0u8
            } else {
                s.at(c)
            },
        ptr: s.ptr - 33,
        output: s.output + signed_decimal(x),
        ..s
    }
}

/// The output of the lowest decimal place, which is always written.
proof fn lemma_print_last_digit(s: Machine)
    requires
        s.slot(33) < 10,
    ensures
        runs(
            last_digit_code(),
            s,
            Machine {
                output: s.output.push((48 + s.slot(33)) as u8),
                ..s.with_cell(s.ptr + 34, 0).with_cell(s.ptr + 33, 0)
            },
        ),
{
    let l1 = s.with_cell(s.ptr + 34, 0);
    lemma_runs_set(34, 0, s);
    let l2 = l1.added(33, 48);
    lemma_runs_add(33, 48, l1);
    let l3 = Machine { output: l2.output.push(l2.slot(33)), ..l2 };
    lemma_runs_put(33, l2);
    let l4 = l3.with_cell(l3.ptr + 33, 0);
    lemma_runs_set(33, 0, l3);
    lemma_runs_concat(set_code(34, 0), add_code(33, 48), s, l1, l2);
    lemma_runs_concat(set_code(34, 0) + add_code(33, 48), put_code(33), s, l2, l3);
    lemma_runs_concat(
        set_code(34, 0) + add_code(33, 48) + put_code(33),
        set_code(33, 0),
        s,
        l3,
        l4,
    );
    let goal = Machine {
        output: s.output.push((48 + s.slot(33)) as u8),
        ..s.with_cell(s.ptr + 34, 0).with_cell(s.ptr + 33, 0)
    };
    assert(l4.tape =~= goal.tape);
    assert(l4 =~= goal);
}

/// The decimal output is correct: started behind a value `x`, with 30 clear
/// cells from the pointer on, it writes `x` as a signed decimal number,
/// without leading zeros, and leaves 0 in every cell of the value, the
/// scratch cells clear as they were, and the pointer on the former head of
/// the value.
#[verifier::rlimit(50)]
pub proof fn lemma_print_prints(s: Machine, x: u32)
    requires
        holds(s, s.ptr - 33, x),
        scratch_clear(s, s.ptr - 33),
    ensures
        runs(print_code(), s, printed(s, x)),
{
    let head = s.ptr - 33;
    let m = magnitude(x);
    let start = s.moved(-33);
    lemma_runs_move(-33, s);
    lemma_bits(x);
    lemma_bits(m);
    // the sign
    lemma_print_sign(start, x);
    let signed_state = signed(start, x);
    lemma_with_value(start, head, m);
    assert forall|c: int| head + 33 <= c <= head + 62 implies #[trigger] (signed_state.tape)(c)
        == 0 by {
        assert((s.tape)(c) == 0);
    }
    // the digits gathered
    lemma_print_gather(signed_state, m, 32);
    let gathered_state = gathering(signed_state, m, 32);
    assert forall|c: int| is_place(head, c) implies #[trigger] (gathered_state.tape)(c)
        == gathered(m, place_of(head, c) as nat, 32) by {
        lemma_gathered_bound(m, place_of(head, c) as nat, 32);
    }
    // the carries
    lemma_print_carry(gathered_state, m, 9);
    let carried_state = carrying(gathered_state, m, 9);
    lemma_carried_digits(m);
    assert forall|c: int| is_place(head, c) implies #[trigger] (carried_state.tape)(c)
        == decimal_digit(m as nat, place_of(head, c) as nat) by {
        let j = place_of(head, c) as nat;
        lemma_carried_bound(m, j);
        if j < 9 {
            assert(carried(m, j) % 10 == decimal_digit(m as nat, j));
        }
    }
    // the digits written
    lemma_print_output(carried_state, m, 1);
    let output_state = printing(carried_state, m, 1);
    assert(is_place(head, head + 33) && place_of(head, head + 33) == 0);
    assert((carried_state.tape)(head + 33) == decimal_digit(m as nat, 0));
    lemma_leading_step(m as nat, 0);
    lemma_print_last_digit(output_state);
    let last = Machine {
        output: output_state.output.push((48 + output_state.slot(33)) as u8),
        ..output_state.with_cell(output_state.ptr + 34, 0).with_cell(output_state.ptr + 33, 0)
    };
    let lowered = last.added(0, -1);
    lemma_runs_add(0, -1, last);
    lemma_runs_move(0, lowered);
    assert(lowered.moved(0) =~= lowered);
    let gather = seq_up(0, 32, |i: int| gather_step(i));
    let carry = seq_up(0, 9, |j: int| carry_step(j));
    let output = seq_down(1, 10, |j: int| output_step(j));
    lemma_runs_concat(move_code(-33), sign_code(), s, start, signed_state);
    lemma_runs_concat(move_code(-33) + sign_code(), gather, s, signed_state, gathered_state);
    lemma_runs_concat(
        move_code(-33) + sign_code() + gather,
        carry,
        s,
        gathered_state,
        carried_state,
    );
    lemma_runs_concat(
        move_code(-33) + sign_code() + gather + carry,
        output,
        s,
        carried_state,
        output_state,
    );
    lemma_runs_concat(
        move_code(-33) + sign_code() + gather + carry + output,
        last_digit_code(),
        s,
        output_state,
        last,
    );
    lemma_runs_concat(
        move_code(-33) + sign_code() + gather + carry + output + last_digit_code(),
        add_code(0, -1),
        s,
        last,
        lowered,
    );
    lemma_runs_concat(
        move_code(-33) + sign_code() + gather + carry + output + last_digit_code() + add_code(
            0,
            -1,
        ),
        move_code(0),
        s,
        lowered,
        lowered,
    );
    let goal = printed(s, x);
    lemma_leading_ends(m as nat);
    assert(lowered.output =~= goal.output);
    assert forall|c: int| #[trigger] (lowered.tape)(c) == (goal.tape)(c) by {
        if head + 33 <= c <= head + 62 {
            assert((s.tape)(c) == 0);
        }
    }
    assert(lowered.tape =~= goal.tape);
    assert(lowered =~= goal);
}

/// Whether `code`, started behind a value `x` with 30 clear cells from the
/// pointer on, always writes `x` as a signed decimal number and leaves 0 in
/// every cell of the value, the pointer on its former head.
pub open spec fn prints(code: Seq<BfCmd>) -> bool {
    forall|s: Machine, x: u32|
        holds(s, s.ptr - 33, x) && scratch_clear(s, s.ptr - 33) ==> #[trigger] runs(
            code,
            s,
            printed(s, x),
        )
}

/// The decimal output prints.
pub proof fn lemma_print_is_print()
    ensures
        prints(print_code()),
{
    assert forall|s: Machine, x: u32|
        holds(s, s.ptr - 33, x) && scratch_clear(s, s.ptr - 33) implies #[trigger] runs(
        print_code(),
        s,
        printed(s, x),
    ) by {
        lemma_print_prints(s, x);
    }
}

} // verus!
