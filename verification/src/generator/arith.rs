//! The arithmetic routines: each 32-bit value lies on the tape as a head
//! cell followed by 32 cells that hold one bit each, least significant
//! first.
use crate::command::{displacement, emit_all, lemma_emit_all_concat_all, BfCmd};
use crate::effect::arith::{complements, lemma_not_is_complement};
use crate::effect::bitwise::{conjoins, differs, disjoins, lemma_bitwise_agree};
use crate::effect::increment::{increments, lemma_successor, loads};
use crate::effect::shift::{lemma_shl_is_shift, shifts};
use crate::generator::control::{incs_code, lemma_while_block, set_code, while_code};
use crate::generator::{add_code, move_code, Generator};
use vstd::arithmetic::power2::{lemma2_to64, pow2};
use vstd::prelude::*;

verus! {

/// The code of `step(lo)`, `step(lo + 1)`, up to `step(hi - 1)`, in that
/// order.
pub open spec fn seq_up(lo: int, hi: int, step: spec_fn(int) -> Seq<BfCmd>) -> Seq<BfCmd>
    decreases hi - lo,
{
    if hi <= lo {
        Seq::empty()
    } else {
        seq_up(lo, hi - 1, step) + step(hi - 1)
    }
}

/// The code of `step(hi - 1)`, `step(hi - 2)`, down to `step(lo)`, in that
/// order.
pub open spec fn seq_down(lo: int, hi: int, step: spec_fn(int) -> Seq<BfCmd>) -> Seq<BfCmd>
    decreases hi - lo,
{
    if hi <= lo {
        Seq::empty()
    } else {
        seq_down(lo + 1, hi, step) + step(lo)
    }
}

/// Bit `i` of `x`.
pub open spec fn bit_of(x: u32, i: u32) -> u32 {
    (x >> i) & 1
}

/// The commands that add bit `i` of `a` to the cell of that bit.
pub open spec fn const_step(a: u32, i: int) -> Seq<BfCmd> {
    add_code(1 + i, bit_of(a, i as u32) as int)
}

/// Constant load: raise the head of a fresh value, add each bit of `a` to its
/// cell, and leave the pointer behind the value.
pub open spec fn const_code(a: i32) -> Seq<BfCmd> {
    add_code(0, 1) + seq_up(0, 32, |i: int| const_step(a as u32, i)) + move_code(33)
}

/// Complement, first pass, bit `i`: raise the cell to the right of the bit,
/// then count both down while the bit is not zero. The bit's cell ends at 0
/// and its right neighbour holds the complement of the bit.
pub open spec fn not_flip_step(i: int) -> Seq<BfCmd> {
    add_code(2 + i, 1) + while_code(1 + i, add_code(1 + i, -1) + add_code(2 + i, -1))
}

/// Complement, second pass, bit `i`: move the right neighbour's value back
/// into the bit's cell.
pub open spec fn not_restore_step(i: int) -> Seq<BfCmd> {
    while_code(2 + i, add_code(2 + i, -1) + add_code(1 + i, 1))
}

/// Bitwise complement of the value before the pointer: the first pass from
/// the most significant bit down, the second from the least significant up.
pub open spec fn not_code() -> Seq<BfCmd> {
    move_code(-33) + seq_down(0, 32, |i: int| not_flip_step(i)) + seq_up(
        0,
        32,
        |i: int| not_restore_step(i),
    ) + move_code(33)
}

/// Conjunction, bit `i`: count the right operand's bit down; if that left it
/// not zero (it was 0), raise it back to 0 and clear the left operand's bit.
pub open spec fn and_step(i: int) -> Seq<BfCmd> {
    add_code(34 + i, -1) + while_code(34 + i, add_code(34 + i, 1) + set_code(1 + i, 0))
}

/// Bitwise conjunction of the two values before the pointer. The right
/// operand is consumed, and the pointer ends on its former head.
pub open spec fn and_code() -> Seq<BfCmd> {
    move_code(-66) + seq_down(0, 32, |i: int| and_step(i)) + add_code(33, -1) + move_code(33)
}

/// Disjunction, bit `i`: while the right operand's bit is not zero, count it
/// down and set the left operand's bit to 1.
pub open spec fn or_step(i: int) -> Seq<BfCmd> {
    while_code(34 + i, add_code(34 + i, -1) + set_code(1 + i, 1))
}

/// Bitwise disjunction of the two values before the pointer. The right
/// operand is consumed, and the pointer ends on its former head.
pub open spec fn or_code() -> Seq<BfCmd> {
    move_code(-66) + seq_down(0, 32, |i: int| or_step(i)) + add_code(33, -1) + move_code(33)
}

/// The scratch cell that exclusive disjunction uses for bit `i`: the left
/// operand's head for the low 13 bits, the right operand's head for the
/// others. Either holds 1.
pub open spec fn xor_scratch(i: int) -> int {
    if i < 13 {
        0
    } else {
        33
    }
}

/// What exclusive disjunction does for bit `i` while the right operand's bit
/// is not zero: count that bit down, then flip the left operand's bit by way
/// of the scratch cell.
pub open spec fn xor_flip_code(i: int) -> Seq<BfCmd> {
    add_code(34 + i, -1) + while_code(
        1 + i,
        add_code(1 + i, -1) + add_code(xor_scratch(i), -1),
    ) + while_code(xor_scratch(i), add_code(xor_scratch(i), -1) + add_code(1 + i, 1)) + add_code(
        xor_scratch(i),
        1,
    )
}

/// Exclusive disjunction, bit `i`.
pub open spec fn xor_step(i: int) -> Seq<BfCmd> {
    while_code(34 + i, xor_flip_code(i))
}

/// Bitwise exclusive disjunction of the two values before the pointer. The
/// right operand is consumed, and the pointer ends on its former head.
pub open spec fn xor_code() -> Seq<BfCmd> {
    move_code(-66) + seq_down(0, 32, |i: int| xor_step(i)) + add_code(33, -1) + move_code(33)
}

/// Shift left, bit `i` of the amount, for `i` from 4 down to 1: while the
/// bit is not zero, count it down and add its weight to bit 0 of the amount.
pub open spec fn shl_weigh_step(i: int) -> Seq<BfCmd> {
    while_code(34 + i, add_code(34 + i, -1) + add_code(34, pow2(i as nat) as int))
}

/// Shift left by one place, bit `i`: move the bit into its left neighbour's
/// cell, the next more significant one.
pub open spec fn shl_carry_step(i: int) -> Seq<BfCmd> {
    while_code(1 + i, add_code(1 + i, -1) + add_code(2 + i, 1))
}

/// Shift left by one place: count the amount down, drop the top bit, and
/// move every other bit one place up, from bit 30 down to bit 0.
pub open spec fn shl_once_code() -> Seq<BfCmd> {
    add_code(34, -1) + set_code(32, 0) + seq_down(0, 31, |i: int| shl_carry_step(i))
}

/// Shift left, bit `i` of the amount, for `i` from 31 down to 6: while the
/// bit is not zero, count it down and set bit 5 of the amount.
pub open spec fn shl_fold_step(i: int) -> Seq<BfCmd> {
    while_code(34 + i, add_code(34 + i, -1) + set_code(39, 1))
}

/// What a shift by 32 places or more does: count bit 5 of the amount down,
/// and clear every bit of the value.
pub open spec fn shl_drop_code() -> Seq<BfCmd> {
    add_code(39, -1) + seq_up(0, 32, |i: int| set_code(1 + i, 0))
}

/// Shift left, the bits 5 to 31 of the amount: they are gathered into bit 5,
/// and if that bit is then set, the amount is 32 or more, and the value is
/// cleared. All of these bits end at 0.
pub open spec fn shl_high_code() -> Seq<BfCmd> {
    seq_down(6, 32, |i: int| shl_fold_step(i)) + while_code(39, shl_drop_code())
}

/// Shift left: of the two values before the pointer, the right one is the
/// amount. If one of its bits 5 to 31 is set, the left value is cleared.
/// Its bits 4 to 1 are gathered into the cell of bit 0, and the left value
/// is shifted by one place while that cell is not zero. The amount is
/// consumed, and the pointer ends on its former head.
pub open spec fn shl_code() -> Seq<BfCmd> {
    move_code(-66) + shl_high_code() + seq_down(1, 5, |i: int| shl_weigh_step(i)) + while_code(
        34,
        shl_once_code(),
    ) + add_code(33, -1) + move_code(33)
}

/// Increment of the value before the pointer: the head is lowered so that
/// the carry chain finds a zero to the left of bit 0, the chain runs, the
/// head is raised again, and the cell behind bit 31, where a carry out of the
/// top bit lands, is cleared. The pointer ends behind the value, where it
/// started.
pub open spec fn inc_code() -> Seq<BfCmd> {
    move_code(-33) + add_code(0, -1) + incs_code(1) + add_code(0, 1) + set_code(33, 0)
        + move_code(33)
}

/// The weight of bit `i`, for `i` from 1 to 4.
fn weight(i: isize) -> (w: i32)
    requires
        1 <= i <= 4,
    ensures
        w == pow2(i as nat),
{
    proof {
        lemma2_to64();
    }
    if i == 1 {
        2
    } else if i == 2 {
        4
    } else if i == 3 {
        8
    } else {
        16
    }
}

/// Bit `i` of `x`.
fn bit(x: u32, i: u32) -> (b: i32)
    requires
        i < 32,
    ensures
        b == bit_of(x, i),
        0 <= b <= 1,
{
    let b: u32 = (x >> i) & 1;
    assert(b <= 1) by (bit_vector)
        requires
            b == (x >> i) & 1,
    ;
    b as i32
}

impl Generator {
    /// Pushes the constant `a`: a head of 1 and the 32 bits of `a`. The
    /// pointer moves from the head of the fresh value to the cell behind it.
    pub fn i32_const(&mut self, a: i32)
        requires
            old(self).wf(),
        ensures
            final(self).wf(),
            final(self)@ == emit_all(old(self)@, const_code(a)),
            displacement(final(self)@) == displacement(old(self)@) + 33,
            loads(const_code(a), a),
    {
        let bits: u32 = a as u32;
        self.add(0, 1);
        let ghost base = self@;
        let mut i: u32 = 0;
        while i < 32
            invariant
                i <= 32,
                self.wf(),
                bits == a as u32,
                self@ == emit_all(base, seq_up(0, i as int, |i: int| const_step(a as u32, i))),
                displacement(self@) == displacement(old(self)@),
            decreases 32 - i,
        {
            self.add(1 + i as isize, bit(bits, i));
            i += 1;
            proof {
                lemma_emit_all_concat_all();
            }
        }
        self.enter(33);
        proof {
            lemma_emit_all_concat_all();
            lemma_successor(a, 1);
        }
    }

    /// Replaces the value before the pointer by its bitwise complement. The
    /// cell under the pointer must hold 0 when the program runs, and the
    /// pointer comes back to it.
    #[verifier::rlimit(50)]
    pub fn i32_not(&mut self)
        requires
            old(self).wf(),
        ensures
            final(self).wf(),
            final(self)@ == emit_all(old(self)@, not_code()),
            displacement(final(self)@) == displacement(old(self)@),
            complements(not_code()),
    {
        self.exit(33);
        let ghost base = self@;
        let mut i: isize = 32;
        while i > 0
            invariant
                0 <= i <= 32,
                self.wf(),
                self@ == emit_all(base, seq_down(i as int, 32, |i: int| not_flip_step(i))),
                displacement(self@) == displacement(old(self)@) - 33,
            decreases i,
        {
            i -= 1;
            self.add(2 + i, 1);
            let mut body = Generator::new();
            body.sub(1 + i, 1);
            body.sub(2 + i, 1);
            let ghost before = self@;
            self.while_nonzero(1 + i, &body);
            proof {
                lemma_while_block(before, 1 + i, add_code(1 + i, -1) + add_code(2 + i, -1));
                lemma_emit_all_concat_all();
            }
        }
        let ghost flipped = self@;
        let mut i: isize = 0;
        while i < 32
            invariant
                0 <= i <= 32,
                self.wf(),
                self@ == emit_all(flipped, seq_up(0, i as int, |i: int| not_restore_step(i))),
                displacement(self@) == displacement(old(self)@) - 33,
            decreases 32 - i,
        {
            let mut body = Generator::new();
            body.sub(2 + i, 1);
            body.add(1 + i, 1);
            let ghost before = self@;
            self.while_nonzero(2 + i, &body);
            proof {
                lemma_while_block(before, 2 + i, add_code(2 + i, -1) + add_code(1 + i, 1));
                lemma_emit_all_concat_all();
            }
            i += 1;
        }
        self.enter(33);
        proof {
            lemma_emit_all_concat_all();
            lemma_not_is_complement();
        }
    }

    /// Replaces the two values before the pointer by their bitwise
    /// conjunction. The pointer ends one value further left.
    #[verifier::rlimit(50)]
    pub fn i32_and(&mut self)
        requires
            old(self).wf(),
        ensures
            final(self).wf(),
            final(self)@ == emit_all(old(self)@, and_code()),
            displacement(final(self)@) == displacement(old(self)@) - 33,
            conjoins(and_code()),
    {
        self.exit(66);
        let ghost base = self@;
        let mut i: isize = 32;
        while i > 0
            invariant
                0 <= i <= 32,
                self.wf(),
                self@ == emit_all(base, seq_down(i as int, 32, |i: int| and_step(i))),
                displacement(self@) == displacement(old(self)@) - 66,
            decreases i,
        {
            i -= 1;
            self.sub(34 + i, 1);
            let mut body = Generator::new();
            body.add(34 + i, 1);
            body.set(1 + i, 0);
            let ghost before = self@;
            self.while_nonzero(34 + i, &body);
            proof {
                lemma_while_block(before, 34 + i, add_code(34 + i, 1) + set_code(1 + i, 0));
                lemma_emit_all_concat_all();
            }
        }
        self.sub(33, 1);
        self.enter(33);
        proof {
            lemma_emit_all_concat_all();
            lemma_bitwise_agree();
        }
    }

    /// Replaces the two values before the pointer by their bitwise
    /// disjunction. The pointer ends one value further left.
    #[verifier::rlimit(50)]
    pub fn i32_or(&mut self)
        requires
            old(self).wf(),
        ensures
            final(self).wf(),
            final(self)@ == emit_all(old(self)@, or_code()),
            displacement(final(self)@) == displacement(old(self)@) - 33,
            disjoins(or_code()),
    {
        self.exit(66);
        let ghost base = self@;
        let mut i: isize = 32;
        while i > 0
            invariant
                0 <= i <= 32,
                self.wf(),
                self@ == emit_all(base, seq_down(i as int, 32, |i: int| or_step(i))),
                displacement(self@) == displacement(old(self)@) - 66,
            decreases i,
        {
            i -= 1;
            let mut body = Generator::new();
            body.sub(34 + i, 1);
            body.set(1 + i, 1);
            let ghost before = self@;
            self.while_nonzero(34 + i, &body);
            proof {
                lemma_while_block(before, 34 + i, add_code(34 + i, -1) + set_code(1 + i, 1));
                lemma_emit_all_concat_all();
            }
        }
        self.sub(33, 1);
        self.enter(33);
        proof {
            lemma_emit_all_concat_all();
            lemma_bitwise_agree();
        }
    }

    /// Replaces the two values before the pointer by their bitwise exclusive
    /// disjunction. The pointer ends one value further left.
    #[verifier::rlimit(50)]
    pub fn i32_xor(&mut self)
        requires
            old(self).wf(),
        ensures
            final(self).wf(),
            final(self)@ == emit_all(old(self)@, xor_code()),
            displacement(final(self)@) == displacement(old(self)@) - 33,
            differs(xor_code()),
    {
        self.exit(66);
        let ghost base = self@;
        let mut i: isize = 32;
        while i > 0
            invariant
                0 <= i <= 32,
                self.wf(),
                self@ == emit_all(base, seq_down(i as int, 32, |i: int| xor_step(i))),
                displacement(self@) == displacement(old(self)@) - 66,
            decreases i,
        {
            i -= 1;
            let temp: isize = if i < 13 {
                0
            } else {
                33
            };
            let mut body = Generator::new();
            body.sub(34 + i, 1);
            let mut drain = Generator::new();
            drain.sub(1 + i, 1);
            drain.sub(temp, 1);
            let ghost first = body@;
            body.while_nonzero(1 + i, &drain);
            let mut refill = Generator::new();
            refill.sub(temp, 1);
            refill.add(1 + i, 1);
            let ghost second = body@;
            body.while_nonzero(temp, &refill);
            body.add(temp, 1);
            let ghost before = self@;
            self.while_nonzero(34 + i, &body);
            proof {
                lemma_while_block(first, 1 + i, add_code(1 + i, -1) + add_code(temp as int, -1));
                lemma_while_block(
                    second,
                    temp as int,
                    add_code(temp as int, -1) + add_code(1 + i, 1),
                );
                lemma_while_block(before, 34 + i, xor_flip_code(i as int));
                lemma_emit_all_concat_all();
            }
        }
        self.sub(33, 1);
        self.enter(33);
        proof {
            lemma_emit_all_concat_all();
            lemma_bitwise_agree();
        }
    }

    /// Appends the handling of the bits 5 to 31 of a shift amount.
    #[verifier::rlimit(50)]
    fn shl_high(&mut self)
        requires
            old(self).wf(),
        ensures
            final(self).wf(),
            final(self)@ == emit_all(old(self)@, shl_high_code()),
            displacement(final(self)@) == displacement(old(self)@),
    {
        let mut i: isize = 32;
        while i > 6
            invariant
                6 <= i <= 32,
                self.wf(),
                self@ == emit_all(old(self)@, seq_down(i as int, 32, |i: int| shl_fold_step(i))),
                displacement(self@) == displacement(old(self)@),
            decreases i,
        {
            i -= 1;
            let mut body = Generator::new();
            body.sub(34 + i, 1);
            body.set(39, 1);
            let ghost before = self@;
            self.while_nonzero(34 + i, &body);
            proof {
                lemma_while_block(before, 34 + i, add_code(34 + i, -1) + set_code(39, 1));
                lemma_emit_all_concat_all();
            }
        }
        let mut drop = Generator::new();
        drop.sub(39, 1);
        let ghost lowered = drop@;
        let mut i: isize = 0;
        while i < 32
            invariant
                0 <= i <= 32,
                drop.wf(),
                drop@ == emit_all(lowered, seq_up(0, i as int, |i: int| set_code(1 + i, 0))),
                displacement(drop@) == 0,
            decreases 32 - i,
        {
            drop.set(1 + i, 0);
            i += 1;
            proof {
                lemma_emit_all_concat_all();
            }
        }
        let ghost folded = self@;
        self.while_nonzero(39, &drop);
        proof {
            lemma_while_block(folded, 39, shl_drop_code());
            lemma_emit_all_concat_all();
        }
    }

    /// Replaces the two values before the pointer by the left one shifted
    /// left by the right one, which is 0 if the amount is 32 or more. The
    /// pointer ends one value further left.
    #[verifier::rlimit(50)]
    pub fn i32_shl(&mut self)
        requires
            old(self).wf(),
        ensures
            final(self).wf(),
            final(self)@ == emit_all(old(self)@, shl_code()),
            displacement(final(self)@) == displacement(old(self)@) - 33,
            shifts(shl_code()),
    {
        self.exit(66);
        self.shl_high();
        let ghost cleared = self@;
        let mut i: isize = 5;
        while i > 1
            invariant
                1 <= i <= 5,
                self.wf(),
                self@ == emit_all(cleared, seq_down(i as int, 5, |i: int| shl_weigh_step(i))),
                displacement(self@) == displacement(old(self)@) - 66,
            decreases i,
        {
            i -= 1;
            let mut body = Generator::new();
            body.sub(34 + i, 1);
            body.add(34, weight(i));
            let ghost before = self@;
            self.while_nonzero(34 + i, &body);
            proof {
                lemma_while_block(
                    before,
                    34 + i,
                    add_code(34 + i, -1) + add_code(34, pow2(i as nat) as int),
                );
                lemma_emit_all_concat_all();
            }
        }
        let mut once = Generator::new();
        once.sub(34, 1);
        once.set(32, 0);
        let ghost start = once@;
        let mut i: isize = 31;
        while i > 0
            invariant
                0 <= i <= 31,
                once.wf(),
                once@ == emit_all(start, seq_down(i as int, 31, |i: int| shl_carry_step(i))),
                displacement(once@) == 0,
            decreases i,
        {
            i -= 1;
            let mut body = Generator::new();
            body.sub(1 + i, 1);
            body.add(2 + i, 1);
            let ghost before = once@;
            once.while_nonzero(1 + i, &body);
            proof {
                lemma_while_block(before, 1 + i, add_code(1 + i, -1) + add_code(2 + i, 1));
                lemma_emit_all_concat_all();
            }
        }
        let ghost weighed = self@;
        self.while_nonzero(34, &once);
        self.sub(33, 1);
        self.enter(33);
        proof {
            lemma_while_block(weighed, 34, shl_once_code());
            lemma_emit_all_concat_all();
            lemma_shl_is_shift();
        }
    }

    /// Adds one to the value before the pointer, wrapping at 32 bits. The
    /// pointer comes back to the cell behind the value.
    pub fn i32_inc(&mut self)
        requires
            old(self).wf(),
        ensures
            final(self).wf(),
            final(self)@ == emit_all(old(self)@, inc_code()),
            displacement(final(self)@) == displacement(old(self)@),
            increments(inc_code()),
    {
        self.exit(33);
        self.sub(0, 1);
        self.incs(1);
        self.add(0, 1);
        self.set(33, 0);
        self.enter(33);
        proof {
            lemma_emit_all_concat_all();
            lemma_successor(0, 1);
        }
    }
}

} // verus!
