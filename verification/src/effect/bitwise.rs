//! What the routines for conjunction, disjunction and exclusive disjunction
//! do when their code runs on the tape machine.
use crate::command::BfCmd;
use crate::effect::arith::{binary_result, holds, lemma_bits};
use crate::effect::{
    lemma_runs_add, lemma_runs_move, lemma_runs_set, lemma_while_once, lemma_while_skip,
};
use crate::generator::arith::{
    and_code, and_step, bit_of, or_code, or_step, seq_down, xor_code, xor_flip_code, xor_scratch,
    xor_step,
};
use crate::generator::control::{set_code, while_code};
use crate::generator::{add_code, move_code};
use crate::machine::{lemma_runs_balanced, lemma_runs_concat, lemma_runs_empty, runs, Machine};
use vstd::prelude::*;

verus! {

/// The tape during a bitwise operation with result `r`, when the bits from
/// 31 down to `i` are done: their cells in the left operand hold the bits of
/// the result, and their cells in the right operand hold 0. The pointer is
/// on the head of the left operand.
pub open spec fn bitwise_done(s: Machine, r: u32, i: int) -> Machine {
    Machine {
        tape: |c: int|
            if s.ptr + 1 + i <= c <= s.ptr + 32 {
                bit_of(r, (c - s.ptr - 1) as u32) as u8
            } else if s.ptr + 34 + i <= c <= s.ptr + 65 {
                0u8
            } else {
                s.at(c)
            },
        ..s
    }
}

/// How the bits of a conjunction, a disjunction and an exclusive
/// disjunction follow from the bits of the operands.
pub proof fn lemma_bitwise_bits(a: u32, b: u32)
    ensures
        forall|i: u32|
            i < 32 ==> #[trigger] bit_of(a & b, i) == if bit_of(b, i) == 1 {
                bit_of(a, i)
            } else {
                0
            },
        forall|i: u32|
            i < 32 ==> #[trigger] bit_of(a | b, i) == if bit_of(b, i) == 1 {
                1
            } else {
                bit_of(a, i)
            },
        forall|i: u32|
            i < 32 ==> #[trigger] bit_of(a ^ b, i) == if bit_of(b, i) == 1 {
                1 - bit_of(a, i)
            } else {
                bit_of(a, i) as int
            },
{
    assert forall|i: u32| i < 32 implies #[trigger] bit_of(a & b, i) == if bit_of(b, i) == 1 {
        bit_of(a, i)
    } else {
        0
    } by {
        assert(((a & b) >> i) & 1 == if (b >> i) & 1 == 1 {
            (a >> i) & 1
        } else {
            0
        }) by (bit_vector);
    }
    assert forall|i: u32| i < 32 implies #[trigger] bit_of(a | b, i) == if bit_of(b, i) == 1 {
        1
    } else {
        bit_of(a, i)
    } by {
        assert(((a | b) >> i) & 1 == if (b >> i) & 1 == 1 {
            1
        } else {
            (a >> i) & 1
        }) by (bit_vector);
    }
    assert forall|i: u32| i < 32 implies #[trigger] bit_of(a ^ b, i) == if bit_of(b, i) == 1 {
        1 - bit_of(a, i)
    } else {
        bit_of(a, i) as int
    } by {
        assert((b >> i) & 1 == 1 ==> ((a ^ b) >> i) & 1 == 1 - ((a >> i) & 1)) by (bit_vector);
        assert((b >> i) & 1 != 1 ==> ((a ^ b) >> i) & 1 == (a >> i) & 1) by (bit_vector);
    }
}

/// A routine that goes to the left operand, handles the bits from 31 down
/// to 0, lowers the head of the right operand and steps behind the left
/// operand leaves the result of an operation on two values, if the bits are
/// handled as [`bitwise_done`] says.
proof fn lemma_bitwise_frame(s: Machine, b: u32, r: u32, step: spec_fn(int) -> Seq<BfCmd>)
    requires
        holds(s, s.ptr - 33, b),
        runs(seq_down(0, 32, step), s.moved(-66), bitwise_done(s.moved(-66), r, 0)),
    ensures
        runs(
            move_code(-66) + seq_down(0, 32, step) + add_code(33, -1) + move_code(33),
            s,
            binary_result(s, r),
        ),
{
    let start = s.moved(-66);
    let done = bitwise_done(start, r, 0);
    let popped = done.added(33, -1);
    lemma_bits(r);
    lemma_runs_move(-66, s);
    lemma_runs_add(33, -1, done);
    lemma_runs_move(33, popped);
    lemma_runs_concat(move_code(-66), seq_down(0, 32, step), s, start, done);
    lemma_runs_concat(move_code(-66) + seq_down(0, 32, step), add_code(33, -1), s, done, popped);
    lemma_runs_concat(
        move_code(-66) + seq_down(0, 32, step) + add_code(33, -1),
        move_code(33),
        s,
        popped,
        popped.moved(33),
    );
    let goal = binary_result(s, r);
    assert(popped.moved(33).tape =~= goal.tape);
    assert(popped.moved(33) =~= goal);
}

/// The conjunction of the bits from 31 down to `i`.
proof fn lemma_and_bits(s: Machine, a: u32, b: u32, i: int)
    requires
        holds(s, s.ptr, a),
        holds(s, s.ptr + 33, b),
        0 <= i <= 32,
    ensures
        runs(seq_down(i, 32, |i: int| and_step(i)), s, bitwise_done(s, a & b, i)),
    decreases 32 - i,
{
    let after = bitwise_done(s, a & b, i);
    lemma_bits(a);
    lemma_bits(b);
    lemma_bitwise_bits(a, b);
    if i == 32 {
        lemma_runs_empty(s);
        assert(after.tape =~= s.tape);
        assert(after =~= s);
    } else {
        lemma_and_bits(s, a, b, i + 1);
        let before = bitwise_done(s, a & b, i + 1);
        assert(before.slot(1 + i) == bit_of(a, i as u32)) by {
            assert((s.tape)(s.ptr + 1 + i) == bit_of(a, ((s.ptr + 1 + i) - s.ptr - 1) as u32));
        }
        assert(before.slot(34 + i) == bit_of(b, i as u32)) by {
            assert((s.tape)(s.ptr + 34 + i) == bit_of(
                b,
                ((s.ptr + 34 + i) - (s.ptr + 33) - 1) as u32,
            ));
        }
        let body = add_code(34 + i, 1) + set_code(1 + i, 0);
        let lowered = before.added(34 + i, -1);
        let raised = lowered.added(34 + i, 1);
        let cleared = raised.with_cell(raised.ptr + (1 + i), 0);
        lemma_runs_add(34 + i, -1, before);
        lemma_runs_add(34 + i, 1, lowered);
        lemma_runs_set(1 + i, 0, raised);
        lemma_runs_concat(add_code(34 + i, 1), set_code(1 + i, 0), lowered, raised, cleared);
        let end = if bit_of(b, i as u32) == 1 {
            lowered
        } else {
            cleared
        };
        if bit_of(b, i as u32) == 1 {
            lemma_runs_balanced(body, lowered, cleared);
            lemma_while_skip(34 + i, body, lowered);
        } else {
            lemma_while_once(34 + i, body, lowered, cleared);
        }
        lemma_runs_concat(add_code(34 + i, -1), while_code(34 + i, body), before, lowered, end);
        lemma_runs_concat(seq_down(i + 1, 32, |i: int| and_step(i)), and_step(i), s, before, end);
        assert(end.tape =~= after.tape);
        assert(end =~= after);
    }
}

/// The disjunction of the bits from 31 down to `i`.
proof fn lemma_or_bits(s: Machine, a: u32, b: u32, i: int)
    requires
        holds(s, s.ptr, a),
        holds(s, s.ptr + 33, b),
        0 <= i <= 32,
    ensures
        runs(seq_down(i, 32, |i: int| or_step(i)), s, bitwise_done(s, a | b, i)),
    decreases 32 - i,
{
    let after = bitwise_done(s, a | b, i);
    lemma_bits(a);
    lemma_bits(b);
    lemma_bitwise_bits(a, b);
    if i == 32 {
        lemma_runs_empty(s);
        assert(after.tape =~= s.tape);
        assert(after =~= s);
    } else {
        lemma_or_bits(s, a, b, i + 1);
        let before = bitwise_done(s, a | b, i + 1);
        assert(before.slot(1 + i) == bit_of(a, i as u32)) by {
            assert((s.tape)(s.ptr + 1 + i) == bit_of(a, ((s.ptr + 1 + i) - s.ptr - 1) as u32));
        }
        assert(before.slot(34 + i) == bit_of(b, i as u32)) by {
            assert((s.tape)(s.ptr + 34 + i) == bit_of(
                b,
                ((s.ptr + 34 + i) - (s.ptr + 33) - 1) as u32,
            ));
        }
        let body = add_code(34 + i, -1) + set_code(1 + i, 1);
        let lowered = before.added(34 + i, -1);
        let set = lowered.with_cell(lowered.ptr + (1 + i), 1);
        lemma_runs_add(34 + i, -1, before);
        lemma_runs_set(1 + i, 1, lowered);
        lemma_runs_concat(add_code(34 + i, -1), set_code(1 + i, 1), before, lowered, set);
        let end = if bit_of(b, i as u32) == 1 {
            set
        } else {
            before
        };
        if bit_of(b, i as u32) == 1 {
            lemma_while_once(34 + i, body, before, set);
        } else {
            lemma_runs_balanced(body, before, set);
            lemma_while_skip(34 + i, body, before);
        }
        lemma_runs_concat(seq_down(i + 1, 32, |i: int| or_step(i)), or_step(i), s, before, end);
        assert(end.tape =~= after.tape);
        assert(end =~= after);
    }
}

/// What runs for bit `i` of an exclusive disjunction if the bit of the right
/// operand is set: that bit is cleared, and the bit of the left operand is
/// flipped by way of the scratch cell, which holds 1 before and after.
proof fn lemma_xor_flip(s: Machine, i: int)
    requires
        0 <= i < 32,
        s.slot(34 + i) == 1,
        s.slot(1 + i) <= 1,
        s.slot(xor_scratch(i)) == 1,
    ensures
        runs(
            xor_flip_code(i),
            s,
            s.with_cell(s.ptr + 34 + i, 0).with_cell(s.ptr + 1 + i, (1 - s.slot(1 + i)) as u8),
        ),
{
    let t = xor_scratch(i);
    let a = s.slot(1 + i);
    let lowered = s.added(34 + i, -1);
    let drain = add_code(1 + i, -1) + add_code(t, -1);
    let refill = add_code(t, -1) + add_code(1 + i, 1);
    lemma_runs_add(34 + i, -1, s);
    // first loop: a set bit takes the scratch cell down with it
    let drained = lowered.added(1 + i, -1).added(t, -1);
    lemma_runs_add(1 + i, -1, lowered);
    lemma_runs_add(t, -1, lowered.added(1 + i, -1));
    lemma_runs_concat(
        add_code(1 + i, -1),
        add_code(t, -1),
        lowered,
        lowered.added(1 + i, -1),
        drained,
    );
    let first = if a == 1 {
        drained
    } else {
        lowered
    };
    if a == 1 {
        lemma_while_once(1 + i, drain, lowered, drained);
    } else {
        lemma_runs_balanced(drain, lowered, drained);
        lemma_while_skip(1 + i, drain, lowered);
    }
    // second loop: a scratch cell that is still up sets the bit
    let refilled = first.added(t, -1).added(1 + i, 1);
    lemma_runs_add(t, -1, first);
    lemma_runs_add(1 + i, 1, first.added(t, -1));
    lemma_runs_concat(add_code(t, -1), add_code(1 + i, 1), first, first.added(t, -1), refilled);
    let second = if a == 1 {
        first
    } else {
        refilled
    };
    if a == 1 {
        lemma_runs_balanced(refill, first, refilled);
        lemma_while_skip(t, refill, first);
    } else {
        lemma_while_once(t, refill, first, refilled);
    }
    let end = second.added(t, 1);
    lemma_runs_add(t, 1, second);
    lemma_runs_concat(add_code(34 + i, -1), while_code(1 + i, drain), s, lowered, first);
    lemma_runs_concat(
        add_code(34 + i, -1) + while_code(1 + i, drain),
        while_code(t, refill),
        s,
        first,
        second,
    );
    lemma_runs_concat(
        add_code(34 + i, -1) + while_code(1 + i, drain) + while_code(t, refill),
        add_code(t, 1),
        s,
        second,
        end,
    );
    let goal = s.with_cell(s.ptr + 34 + i, 0).with_cell(s.ptr + 1 + i, (1 - a) as u8);
    assert(end.tape =~= goal.tape);
    assert(end =~= goal);
}

/// The exclusive disjunction of the bits from 31 down to `i`.
proof fn lemma_xor_bits(s: Machine, a: u32, b: u32, i: int)
    requires
        holds(s, s.ptr, a),
        holds(s, s.ptr + 33, b),
        0 <= i <= 32,
    ensures
        runs(seq_down(i, 32, |i: int| xor_step(i)), s, bitwise_done(s, a ^ b, i)),
    decreases 32 - i,
{
    let after = bitwise_done(s, a ^ b, i);
    lemma_bits(a);
    lemma_bits(b);
    lemma_bitwise_bits(a, b);
    if i == 32 {
        lemma_runs_empty(s);
        assert(after.tape =~= s.tape);
        assert(after =~= s);
    } else {
        lemma_xor_bits(s, a, b, i + 1);
        let before = bitwise_done(s, a ^ b, i + 1);
        assert(before.slot(1 + i) == bit_of(a, i as u32)) by {
            assert((s.tape)(s.ptr + 1 + i) == bit_of(a, ((s.ptr + 1 + i) - s.ptr - 1) as u32));
        }
        assert(before.slot(34 + i) == bit_of(b, i as u32)) by {
            assert((s.tape)(s.ptr + 34 + i) == bit_of(
                b,
                ((s.ptr + 34 + i) - (s.ptr + 33) - 1) as u32,
            ));
        }
        let flipped = before.with_cell(before.ptr + 34 + i, 0).with_cell(
            before.ptr + 1 + i,
            (1 - before.slot(1 + i)) as u8,
        );
        let end = if bit_of(b, i as u32) == 1 {
            flipped
        } else {
            before
        };
        if bit_of(b, i as u32) == 1 {
            lemma_xor_flip(before, i);
            lemma_while_once(34 + i, xor_flip_code(i), before, flipped);
        } else {
            let probe = before.with_cell(before.ptr + 34 + i, 1).with_cell(
                before.ptr + xor_scratch(i),
                1,
            );
            lemma_xor_flip(probe, i);
            lemma_runs_balanced(
                xor_flip_code(i),
                probe,
                probe.with_cell(probe.ptr + 34 + i, 0).with_cell(
                    probe.ptr + 1 + i,
                    (1 - probe.slot(1 + i)) as u8,
                ),
            );
            lemma_while_skip(34 + i, xor_flip_code(i), before);
        }
        lemma_runs_concat(seq_down(i + 1, 32, |i: int| xor_step(i)), xor_step(i), s, before, end);
        assert(end.tape =~= after.tape);
        assert(end =~= after);
    }
}

/// The conjunction routine is correct: started behind two values `a` and
/// `b`, it leaves `a & b` where `a` was, 0 in every cell of `b`, and the
/// pointer on the former head of `b`.
pub proof fn lemma_and_conjoins(s: Machine, a: u32, b: u32)
    requires
        holds(s, s.ptr - 66, a),
        holds(s, s.ptr - 33, b),
    ensures
        runs(and_code(), s, binary_result(s, a & b)),
{
    lemma_and_bits(s.moved(-66), a, b, 0);
    lemma_bitwise_frame(s, b, a & b, |i: int| and_step(i));
}

/// The disjunction routine is correct: started behind two values `a` and
/// `b`, it leaves `a | b` where `a` was, 0 in every cell of `b`, and the
/// pointer on the former head of `b`.
pub proof fn lemma_or_disjoins(s: Machine, a: u32, b: u32)
    requires
        holds(s, s.ptr - 66, a),
        holds(s, s.ptr - 33, b),
    ensures
        runs(or_code(), s, binary_result(s, a | b)),
{
    lemma_or_bits(s.moved(-66), a, b, 0);
    lemma_bitwise_frame(s, b, a | b, |i: int| or_step(i));
}

/// The routine for exclusive disjunction is correct: started behind two
/// values `a` and `b`, it leaves `a ^ b` where `a` was, 0 in every cell of
/// `b`, and the pointer on the former head of `b`.
pub proof fn lemma_xor_differs(s: Machine, a: u32, b: u32)
    requires
        holds(s, s.ptr - 66, a),
        holds(s, s.ptr - 33, b),
    ensures
        runs(xor_code(), s, binary_result(s, a ^ b)),
{
    lemma_xor_bits(s.moved(-66), a, b, 0);
    lemma_bitwise_frame(s, b, a ^ b, |i: int| xor_step(i));
}

/// Whether `code`, started behind two values `a` and `b`, always leaves
/// `a & b` where `a` was, 0 in every cell of `b`, and the pointer on the
/// former head of `b`.
pub open spec fn conjoins(code: Seq<BfCmd>) -> bool {
    forall|s: Machine, a: u32, b: u32|
        holds(s, s.ptr - 66, a) && holds(s, s.ptr - 33, b) ==> #[trigger] runs(
            code,
            s,
            binary_result(s, a & b),
        )
}

/// Whether `code`, started behind two values `a` and `b`, always leaves
/// `a | b` where `a` was, 0 in every cell of `b`, and the pointer on the
/// former head of `b`.
pub open spec fn disjoins(code: Seq<BfCmd>) -> bool {
    forall|s: Machine, a: u32, b: u32|
        holds(s, s.ptr - 66, a) && holds(s, s.ptr - 33, b) ==> #[trigger] runs(
            code,
            s,
            binary_result(s, a | b),
        )
}

/// Whether `code`, started behind two values `a` and `b`, always leaves
/// `a ^ b` where `a` was, 0 in every cell of `b`, and the pointer on the
/// former head of `b`.
pub open spec fn differs(code: Seq<BfCmd>) -> bool {
    forall|s: Machine, a: u32, b: u32|
        holds(s, s.ptr - 66, a) && holds(s, s.ptr - 33, b) ==> #[trigger] runs(
            code,
            s,
            binary_result(s, a ^ b),
        )
}

/// The three bitwise routines compute the native operators.
pub proof fn lemma_bitwise_agree()
    ensures
        conjoins(and_code()),
        disjoins(or_code()),
        differs(xor_code()),
{
    assert forall|s: Machine, a: u32, b: u32|
        holds(s, s.ptr - 66, a) && holds(s, s.ptr - 33, b) implies #[trigger] runs(
        and_code(),
        s,
        binary_result(s, a & b),
    ) by {
        lemma_and_conjoins(s, a, b);
    }
    assert forall|s: Machine, a: u32, b: u32|
        holds(s, s.ptr - 66, a) && holds(s, s.ptr - 33, b) implies #[trigger] runs(
        or_code(),
        s,
        binary_result(s, a | b),
    ) by {
        lemma_or_disjoins(s, a, b);
    }
    assert forall|s: Machine, a: u32, b: u32|
        holds(s, s.ptr - 66, a) && holds(s, s.ptr - 33, b) implies #[trigger] runs(
        xor_code(),
        s,
        binary_result(s, a ^ b),
    ) by {
        lemma_xor_differs(s, a, b);
    }
}

} // verus!
