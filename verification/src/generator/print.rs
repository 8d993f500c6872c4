//! Decimal output of a 32-bit value.
//!
//! The value's bits are turned into decimal digits on the tape itself: each
//! set bit adds the digits of its power of two to a row of scratch cells, one
//! cell per decimal place, three cells apart. The sums are then carried from
//! the lowest place up, and written from the highest place down.
use crate::command::{
    displacement, emit_all, lemma_displacement_concat, lemma_displacement_emit_all,
    lemma_emit_all_concat, lemma_emit_all_concat_all, lemma_parse_concat, parse, BfCmd,
};
use crate::effect::print::{lemma_print_is_print, prints};
use crate::generator::arith::{not_code, seq_down, seq_up};
use crate::generator::control::{incs_code, lemma_while_block, set_code, while_code};
use crate::generator::{add_code, move_code, put_code, Generator};
use vstd::arithmetic::power2::{lemma2_to64, pow2};
use vstd::bits::{lemma_u32_pow2_no_overflow, lemma_u32_shl_is_mul};
use vstd::prelude::*;

verus! {

/// What runs while the top bit is set: write a minus sign, negate the value
/// (complement, then the carry chain from bit 0), and if the top bit is
/// still set, as it is for the least value only, move it aside so that the
/// loop ends.
pub open spec fn negate_code() -> Seq<BfCmd> {
    add_code(33, 45) + put_code(33) + set_code(33, 0) + move_code(33) + not_code() + move_code(
        -33,
    ) + add_code(0, -1) + incs_code(1) + add_code(0, 1) + while_code(
        32,
        add_code(32, -1) + add_code(34, 1),
    )
}

/// The sign: negate while the top bit is set, then put back a top bit that
/// was moved aside.
pub open spec fn sign_code() -> Seq<BfCmd> {
    while_code(32, negate_code()) + while_code(34, add_code(34, -1) + add_code(32, 1))
}

/// The commands that add the decimal digits of `v` to the scratch cells, the
/// lowest digit to the cell of place `j`, the next to that of place `j + 1`,
/// and so on up to the highest digit of `v`.
pub open spec fn digits_code(v: nat, j: int) -> Seq<BfCmd>
    decreases v,
{
    if v == 0 {
        Seq::empty()
    } else {
        add_code(33 + 3 * j, (v % 10) as int) + digits_code(v / 10, j + 1)
    }
}

/// Bit `i`: while it is set, count it down and add the digits of `2^i` to
/// the scratch cells.
pub open spec fn gather_step(i: int) -> Seq<BfCmd> {
    while_code(1 + i, add_code(1 + i, -1) + digits_code(pow2(i as nat), 0))
}

/// Division with remainder of the current cell by its right neighbour:
/// `[->-[>+>>]>[+[-<+>]>+>>]<<<<<]`. The current cell ends at 0, the
/// remainder lies two cells to the right, and the quotient is added three
/// cells to the right.
pub open spec fn divmod_code() -> Seq<BfCmd> {
    seq![
        BfCmd::Open,
        BfCmd::Dec,
        BfCmd::Right,
        BfCmd::Dec,
        BfCmd::Open,
        BfCmd::Right,
        BfCmd::Inc,
        BfCmd::Right,
        BfCmd::Right,
        BfCmd::Close,
        BfCmd::Right,
        BfCmd::Open,
        BfCmd::Inc,
        BfCmd::Open,
        BfCmd::Dec,
        BfCmd::Left,
        BfCmd::Inc,
        BfCmd::Right,
        BfCmd::Close,
        BfCmd::Right,
        BfCmd::Inc,
        BfCmd::Right,
        BfCmd::Right,
        BfCmd::Close,
        BfCmd::Left,
        BfCmd::Left,
        BfCmd::Left,
        BfCmd::Left,
        BfCmd::Left,
        BfCmd::Close,
    ]
}

/// Carry at decimal place `j`: divide the cell of the place by 10, which
/// adds the quotient to the cell of the next place, and move the remainder
/// back into the cell of the place.
pub open spec fn carry_step(j: int) -> Seq<BfCmd> {
    add_code(34 + 3 * j, 10) + move_code(33 + 3 * j) + divmod_code() + move_code(-(33 + 3 * j))
        + set_code(34 + 3 * j, 0) + while_code(
        35 + 3 * j,
        add_code(35 + 3 * j, -1) + add_code(33 + 3 * j, 1),
    )
}

/// What the output of place `j` does if its mark is set: pass the mark on to
/// the next lower place, and write the digit.
pub open spec fn write_digit_code(j: int) -> Seq<BfCmd> {
    while_code(34 + 3 * j, set_code(34 + 3 * j, 0) + add_code(31 + 3 * j, 1)) + add_code(
        35 + 3 * j,
        48,
    ) + put_code(35 + 3 * j) + set_code(35 + 3 * j, 0)
}

/// Output of decimal place `j`, for `j` from 9 down to 1: move the digit
/// into the two cells to its right, the first of which is the mark of this
/// place, and write it if the mark is set. The mark is set by a digit that is
/// not zero, or by a higher place that was written: leading zeros are not
/// written.
pub open spec fn output_step(j: int) -> Seq<BfCmd> {
    while_code(33 + 3 * j, add_code(33 + 3 * j, -1) + add_code(34 + 3 * j, 1) + add_code(
        35 + 3 * j,
        1,
    )) + while_code(34 + 3 * j, write_digit_code(j))
}

/// Output of the lowest decimal place, which is always written.
pub open spec fn last_digit_code() -> Seq<BfCmd> {
    set_code(34, 0) + add_code(33, 48) + put_code(33) + set_code(33, 0)
}

/// Decimal output of the value before the pointer: the sign, the digits of
/// each set bit gathered, the carries from place 0 to place 8, the output
/// from place 9 to place 1, and the last digit. The value is consumed, and
/// the pointer ends on its former head.
pub open spec fn print_code() -> Seq<BfCmd> {
    move_code(-33) + sign_code() + seq_up(0, 32, |i: int| gather_step(i)) + seq_up(
        0,
        9,
        |j: int| carry_step(j),
    ) + seq_down(1, 10, |j: int| output_step(j)) + last_digit_code() + add_code(0, -1)
        + move_code(0)
}

/// Decimal digit `j` of `v`, digit 0 being the lowest.
pub open spec fn decimal_digit(v: nat, j: nat) -> nat {
    (v / pow10(j)) % 10
}

/// The most that the scratch cell of decimal place `j` can hold before the
/// carries: digit `j` of `2^i`, summed over the bits `i` below `n`.
pub open spec fn digit_sum(j: nat, n: nat) -> nat
    decreases n,
{
    if n == 0 {
        0
    } else {
        digit_sum(j, (n - 1) as nat) + decimal_digit(pow2((n - 1) as nat), j)
    }
}

/// The most that the scratch cell of decimal place `j` can hold when its
/// carry step starts: its own digit sum and the quotient that the place
/// below handed up.
pub open spec fn carried_sum(j: nat) -> nat
    decreases j,
{
    if j == 0 {
        digit_sum(0, 32)
    } else {
        digit_sum(j, 32) + carried_sum((j - 1) as nat) / 10
    }
}

impl Generator {
    /// Appends the sign handling of decimal output.
    #[verifier::rlimit(50)]
    fn print_sign(&mut self)
        requires
            old(self).wf(),
        ensures
            final(self).wf(),
            final(self)@ == emit_all(old(self)@, sign_code()),
            displacement(final(self)@) == displacement(old(self)@),
    {
        let mut negate = Generator::new();
        negate.add(33, 45);
        negate.put(33);
        negate.set(33, 0);
        negate.enter(33);
        negate.i32_not();
        negate.exit(33);
        negate.sub(0, 1);
        negate.incs(1);
        negate.add(0, 1);
        let mut aside = Generator::new();
        aside.sub(32, 1);
        aside.add(34, 1);
        let ghost inner = negate@;
        negate.while_nonzero(32, &aside);
        self.while_nonzero(32, &negate);
        let mut back = Generator::new();
        back.sub(34, 1);
        back.add(32, 1);
        let ghost negated = self@;
        self.while_nonzero(34, &back);
        proof {
            lemma_while_block(inner, 32, add_code(32, -1) + add_code(34, 1));
            lemma_while_block(old(self)@, 32, negate_code());
            lemma_while_block(negated, 34, add_code(34, -1) + add_code(32, 1));
            lemma_emit_all_concat_all();
        }
    }

    /// Appends the commands that add the decimal digits of `v` to the scratch
    /// cells from place 0 up.
    fn print_digits(&mut self, v: u32)
        requires
            old(self).wf(),
        ensures
            final(self).wf(),
            final(self)@ == emit_all(old(self)@, digits_code(v as nat, 0)),
            displacement(final(self)@) == displacement(old(self)@),
    {
        let mut digits: u32 = v;
        let mut j: isize = 0;
        assert(digits as int * pow10(0) == digits) by (nonlinear_arith)
            requires
                pow10(0) == 1,
        ;
        while digits > 0
            invariant
                0 <= j <= 10,
                digits as int * pow10(j as nat) <= u32::MAX,
                self.wf(),
                emit_all(self@, digits_code(digits as nat, j as int)) == emit_all(
                    old(self)@,
                    digits_code(v as nat, 0),
                ),
                displacement(self@) == displacement(old(self)@),
            decreases digits,
        {
            proof {
                lemma_emit_all_concat_all();
                lemma_pow10_step(digits as nat, j as nat);
            }
            let d: i32 = (digits % 10) as i32;
            self.add(33 + 3 * j, d);
            digits = digits / 10;
            j += 1;
        }
    }

    /// Appends, for each bit, the loop that adds the digits of its power of
    /// two to the scratch cells while the bit is set.
    #[verifier::rlimit(50)]
    fn print_gather(&mut self)
        requires
            old(self).wf(),
        ensures
            final(self).wf(),
            final(self)@ == emit_all(old(self)@, seq_up(0, 32, |i: int| gather_step(i))),
            displacement(final(self)@) == displacement(old(self)@),
    {
        let mut i: u32 = 0;
        while i < 32
            invariant
                i <= 32,
                self.wf(),
                self@ == emit_all(old(self)@, seq_up(0, i as int, |i: int| gather_step(i))),
                displacement(self@) == displacement(old(self)@),
            decreases 32 - i,
        {
            proof {
                lemma_u32_pow2_no_overflow(i as nat);
                lemma_u32_shl_is_mul(1, i);
            }
            let power: u32 = 1u32 << i;
            let mut body = Generator::new();
            body.sub(1 + i as isize, 1);
            body.print_digits(power);
            let ghost before = self@;
            self.while_nonzero(1 + i as isize, &body);
            proof {
                lemma_while_block(
                    before,
                    1 + i,
                    add_code(1 + i, -1) + digits_code(pow2(i as nat), 0),
                );
                lemma_emit_all_concat_all();
            }
            i += 1;
        }
    }

    /// Appends the division with remainder of the current cell by its right
    /// neighbour.
    fn print_divmod(&mut self)
        requires
            old(self).wf(),
        ensures
            final(self).wf(),
            final(self)@ == emit_all(old(self)@, divmod_code()),
            displacement(final(self)@) == displacement(old(self)@) + 3,
    {
        self.raw("[->-[>+>>]>[+[-<+>]>+>>]<<<<<]");
        proof {
            lemma_divmod_text();
            lemma_displacement_emit_all(old(self)@, divmod_code());
        }
    }

    /// Appends the carry step of decimal place `j`.
    #[verifier::rlimit(50)]
    fn print_carry_at(&mut self, j: isize)
        requires
            old(self).wf(),
            0 <= j < 9,
        ensures
            final(self).wf(),
            final(self)@ == emit_all(old(self)@, carry_step(j as int)),
            displacement(final(self)@) == displacement(old(self)@) + 3,
    {
        let dividend: isize = 33 + 3 * j;
        let divisor: isize = 34 + 3 * j;
        let remainder: isize = 35 + 3 * j;
        self.add(divisor, 10);
        self.enter(dividend);
        self.print_divmod();
        self.exit(dividend);
        self.set(divisor, 0);
        let mut body = Generator::new();
        body.sub(remainder, 1);
        body.add(dividend, 1);
        let ghost before = self@;
        self.while_nonzero(remainder, &body);
        proof {
            lemma_while_block(
                before,
                remainder as int,
                add_code(remainder as int, -1) + add_code(dividend as int, 1),
            );
            lemma_emit_all_concat_all();
        }
    }

    /// Appends the carry steps of the decimal places 0 to 8.
    fn print_carry(&mut self)
        requires
            old(self).wf(),
        ensures
            final(self).wf(),
            final(self)@ == emit_all(old(self)@, seq_up(0, 9, |j: int| carry_step(j))),
            displacement(final(self)@) == displacement(old(self)@) + 27,
    {
        let mut j: isize = 0;
        while j < 9
            invariant
                0 <= j <= 9,
                self.wf(),
                self@ == emit_all(old(self)@, seq_up(0, j as int, |j: int| carry_step(j))),
                displacement(self@) == displacement(old(self)@) + 3 * j,
            decreases 9 - j,
        {
            let ghost before = self@;
            self.print_carry_at(j);
            proof {
                let done = seq_up(0, j as int, |j: int| carry_step(j));
                lemma_emit_all_concat(old(self)@, done, carry_step(j as int));
            }
            j += 1;
        }
    }

    /// Appends what the output of place `j` does if its mark is set.
    #[verifier::rlimit(50)]
    fn print_write_digit(&mut self, j: isize)
        requires
            old(self).wf(),
            1 <= j < 10,
        ensures
            final(self).wf(),
            final(self)@ == emit_all(old(self)@, write_digit_code(j as int)),
            displacement(final(self)@) == displacement(old(self)@),
    {
        let s1: isize = 31 + 3 * j;
        let t1: isize = 34 + 3 * j;
        let t2: isize = 35 + 3 * j;
        let mut pass = Generator::new();
        pass.set(t1, 0);
        pass.add(s1, 1);
        self.while_nonzero(t1, &pass);
        self.add(t2, 48);
        self.put(t2);
        self.set(t2, 0);
        proof {
            lemma_while_block(
                old(self)@,
                t1 as int,
                set_code(t1 as int, 0) + add_code(s1 as int, 1),
            );
            lemma_emit_all_concat_all();
        }
    }

    /// Appends the output of decimal place `j`.
    #[verifier::rlimit(50)]
    fn print_output_at(&mut self, j: isize)
        requires
            old(self).wf(),
            1 <= j < 10,
        ensures
            final(self).wf(),
            final(self)@ == emit_all(old(self)@, output_step(j as int)),
            displacement(final(self)@) == displacement(old(self)@),
    {
        let t0: isize = 33 + 3 * j;
        let t1: isize = 34 + 3 * j;
        let t2: isize = 35 + 3 * j;
        let mut split = Generator::new();
        split.sub(t0, 1);
        split.add(t1, 1);
        split.add(t2, 1);
        self.while_nonzero(t0, &split);
        let mut write = Generator::new();
        write.print_write_digit(j);
        let ghost halfway = self@;
        self.while_nonzero(t1, &write);
        proof {
            lemma_while_block(
                old(self)@,
                t0 as int,
                add_code(t0 as int, -1) + add_code(t1 as int, 1) + add_code(t2 as int, 1),
            );
            lemma_while_block(halfway, t1 as int, write_digit_code(j as int));
            lemma_emit_all_concat_all();
        }
    }

    /// Appends the output of the decimal places 9 to 1.
    fn print_output(&mut self)
        requires
            old(self).wf(),
        ensures
            final(self).wf(),
            final(self)@ == emit_all(old(self)@, seq_down(1, 10, |j: int| output_step(j))),
            displacement(final(self)@) == displacement(old(self)@),
    {
        let mut j: isize = 10;
        while j > 1
            invariant
                1 <= j <= 10,
                self.wf(),
                self@ == emit_all(old(self)@, seq_down(j as int, 10, |j: int| output_step(j))),
                displacement(self@) == displacement(old(self)@),
            decreases j,
        {
            j -= 1;
            self.print_output_at(j);
            proof {
                let done = seq_down(j + 1, 10, |j: int| output_step(j));
                lemma_emit_all_concat(old(self)@, done, output_step(j as int));
            }
        }
    }

    /// Writes the value before the pointer in decimal, with a minus sign if
    /// its top bit is set, and consumes it. The cells behind the value must
    /// hold 0 when the program runs. The pointer ends on the former head of
    /// the value.
    pub fn i32_print(&mut self)
        requires
            old(self).wf(),
        ensures
            final(self).wf(),
            final(self)@ == emit_all(old(self)@, print_code()),
            displacement(final(self)@) == displacement(old(self)@) - 6,
            prints(print_code()),
    {
        self.exit(33);
        self.print_sign();
        self.print_gather();
        self.print_carry();
        self.print_output();
        self.set(34, 0);
        self.add(33, 48);
        self.put(33);
        self.set(33, 0);
        self.sub(0, 1);
        self.enter(0);
        proof {
            lemma_emit_all_concat_all();
            lemma_print_is_print();
        }
    }
}

/// The text of the division idiom holds the commands of [`divmod_code`],
/// which move the pointer three cells to the right when each is counted
/// once.
proof fn lemma_divmod_text()
    ensures
        parse("[->-[>+>>]>[+[-<+>]>+>>]<<<<<]"@) == divmod_code(),
        displacement(divmod_code()) == 3,
{
    let whole = "[->-[>+>>]>[+[-<+>]>+>>]<<<<<]"@;
    let a = "[->-[>+>>]"@;
    let b = ">[+[-<+>]>"@;
    let c = "+>>]<<<<<]"@;
    reveal_strlit("[->-[>+>>]>[+[-<+>]>+>>]<<<<<]");
    reveal_strlit("[->-[>+>>]");
    reveal_strlit(">[+[-<+>]>");
    reveal_strlit("+>>]<<<<<]");
    assert(whole =~= a + b + c);
    lemma_parse_concat(a + b, c);
    lemma_parse_concat(a, b);
    let pa = parse(a);
    let pb = parse(b);
    let pc = parse(c);
    assert(pa =~= divmod_code().subrange(0, 10)) by {
        reveal_with_fuel(parse, 11);
    }
    assert(pb =~= divmod_code().subrange(10, 20)) by {
        reveal_with_fuel(parse, 11);
    }
    assert(pc =~= divmod_code().subrange(20, 30)) by {
        reveal_with_fuel(parse, 11);
    }
    assert(divmod_code() =~= pa + pb + pc);
    lemma_displacement_concat(pa + pb, pc);
    lemma_displacement_concat(pa, pb);
    assert(displacement(pa) == 4) by {
        reveal_with_fuel(displacement, 11);
    }
    assert(displacement(pb) == 2) by {
        reveal_with_fuel(displacement, 11);
    }
    assert(displacement(pc) == -3) by {
        reveal_with_fuel(displacement, 11);
    }
}

/// No scratch cell of the decimal output can pass 255, the most that a cell
/// of the tape holds: neither by the digits that the 32 bits add to it, nor
/// with the carry from the place below added.
#[verifier::rlimit(50)]
pub proof fn lemma_digit_sums_fit()
    ensures
        forall|j: nat| j < 10 ==> #[trigger] digit_sum(j, 32) <= 255,
        forall|j: nat| j < 10 ==> #[trigger] carried_sum(j) <= 255,
        carried_sum(9) < 10,
{
    lemma2_to64();
    lemma_pow10_values();
    assert(digit_sum(0, 32) == 155) by {
        assert(digit_sum(0, 8) == 35) by {
            reveal_with_fuel(digit_sum, 9);
        }
        assert(digit_sum(0, 16) == 75) by {
            reveal_with_fuel(digit_sum, 9);
        }
        assert(digit_sum(0, 24) == 115) by {
            reveal_with_fuel(digit_sum, 9);
        }
        reveal_with_fuel(digit_sum, 9);
    }
    assert(digit_sum(1, 32) == 114) by {
        assert(digit_sum(1, 8) == 12) by {
            reveal_with_fuel(digit_sum, 9);
        }
        assert(digit_sum(1, 16) == 56) by {
            reveal_with_fuel(digit_sum, 9);
        }
        assert(digit_sum(1, 24) == 90) by {
            reveal_with_fuel(digit_sum, 9);
        }
        reveal_with_fuel(digit_sum, 9);
    }
    assert(digit_sum(2, 32) == 90) by {
        assert(digit_sum(2, 8) == 1) by {
            reveal_with_fuel(digit_sum, 9);
        }
        assert(digit_sum(2, 16) == 19) by {
            reveal_with_fuel(digit_sum, 9);
        }
        assert(digit_sum(2, 24) == 42) by {
            reveal_with_fuel(digit_sum, 9);
        }
        reveal_with_fuel(digit_sum, 9);
    }
    assert(digit_sum(3, 32) == 97) by {
        assert(digit_sum(3, 8) == 0) by {
            reveal_with_fuel(digit_sum, 9);
        }
        assert(digit_sum(3, 16) == 23) by {
            reveal_with_fuel(digit_sum, 9);
        }
        assert(digit_sum(3, 24) == 62) by {
            reveal_with_fuel(digit_sum, 9);
        }
        reveal_with_fuel(digit_sum, 9);
    }
    assert(digit_sum(4, 32) == 86) by {
        assert(digit_sum(4, 8) == 0) by {
            reveal_with_fuel(digit_sum, 9);
        }
        assert(digit_sum(4, 16) == 4) by {
            reveal_with_fuel(digit_sum, 9);
        }
        assert(digit_sum(4, 24) == 51) by {
            reveal_with_fuel(digit_sum, 9);
        }
        reveal_with_fuel(digit_sum, 9);
    }
    assert(digit_sum(5, 32) == 50) by {
        assert(digit_sum(5, 8) == 0) by {
            reveal_with_fuel(digit_sum, 9);
        }
        assert(digit_sum(5, 16) == 0) by {
            reveal_with_fuel(digit_sum, 9);
        }
        assert(digit_sum(5, 24) == 12) by {
            reveal_with_fuel(digit_sum, 9);
        }
        reveal_with_fuel(digit_sum, 9);
    }
    assert(digit_sum(6, 32) == 59) by {
        assert(digit_sum(6, 8) == 0) by {
            reveal_with_fuel(digit_sum, 9);
        }
        assert(digit_sum(6, 16) == 0) by {
            reveal_with_fuel(digit_sum, 9);
        }
        assert(digit_sum(6, 24) == 15) by {
            reveal_with_fuel(digit_sum, 9);
        }
        reveal_with_fuel(digit_sum, 9);
    }
    assert(digit_sum(7, 32) == 33) by {
        assert(digit_sum(7, 8) == 0) by {
            reveal_with_fuel(digit_sum, 9);
        }
        assert(digit_sum(7, 16) == 0) by {
            reveal_with_fuel(digit_sum, 9);
        }
        assert(digit_sum(7, 24) == 0) by {
            reveal_with_fuel(digit_sum, 9);
        }
        reveal_with_fuel(digit_sum, 9);
    }
    assert(digit_sum(8, 32) == 9) by {
        assert(digit_sum(8, 8) == 0) by {
            reveal_with_fuel(digit_sum, 9);
        }
        assert(digit_sum(8, 16) == 0) by {
            reveal_with_fuel(digit_sum, 9);
        }
        assert(digit_sum(8, 24) == 0) by {
            reveal_with_fuel(digit_sum, 9);
        }
        reveal_with_fuel(digit_sum, 9);
    }
    assert(digit_sum(9, 32) == 3) by {
        assert(digit_sum(9, 8) == 0) by {
            reveal_with_fuel(digit_sum, 9);
        }
        assert(digit_sum(9, 16) == 0) by {
            reveal_with_fuel(digit_sum, 9);
        }
        assert(digit_sum(9, 24) == 0) by {
            reveal_with_fuel(digit_sum, 9);
        }
        reveal_with_fuel(digit_sum, 9);
    }
    reveal_with_fuel(carried_sum, 11);
}

/// The powers of ten that fit in 32 bits, and the next.
pub proof fn lemma_pow10_values()
    ensures
        pow10(0) == 1,
        pow10(1) == 10,
        pow10(2) == 100,
        pow10(3) == 1000,
        pow10(4) == 10000,
        pow10(5) == 100000,
        pow10(6) == 1000000,
        pow10(7) == 10000000,
        pow10(8) == 100000000,
        pow10(9) == 1000000000,
        pow10(10) == 10000000000,
{
    reveal_with_fuel(pow10, 11);
}

/// Ten to the power `j`.
pub open spec fn pow10(j: nat) -> nat
    decreases j,
{
    if j == 0 {
        1
    } else {
        10 * pow10((j - 1) as nat)
    }
}

/// A number with digits left above place `j` of a 32-bit value leaves a
/// smaller number above place `j + 1`, and `j` is below 10.
proof fn lemma_pow10_step(digits: nat, j: nat)
    requires
        digits > 0,
        j <= 10,
        digits * pow10(j) <= u32::MAX,
    ensures
        j < 10,
        (digits / 10) * pow10(j + 1) <= u32::MAX,
{
    reveal_with_fuel(pow10, 11);
    if j == 10 {
        assert(pow10(10) == 10000000000);
        assert(digits * pow10(10) >= pow10(10)) by (nonlinear_arith)
            requires
                digits >= 1,
        ;
    }
    assert((digits / 10) * (10 * pow10(j)) <= digits * pow10(j)) by (nonlinear_arith)
        requires
            digits / 10 * 10 <= digits,
    ;
}

} // verus!
