//! What the arithmetic routines do when their code runs on the tape
//! machine.
use crate::command::BfCmd;
use crate::effect::{lemma_runs_add, lemma_runs_move, lemma_while_once, lemma_while_skip};
use crate::generator::arith::{bit_of, not_code, not_flip_step, not_restore_step, seq_down, seq_up};
use crate::generator::control::while_code;
use crate::generator::{add_code, move_code};
use crate::machine::{lemma_runs_balanced, lemma_runs_concat, lemma_runs_empty, runs, Machine};
use vstd::prelude::*;

verus! {

/// Whether the tape of `s` holds the 32-bit value `x` with its head in cell
/// `head`: a 1 in the head, and bit `i` of `x` in the cell `1 + i` cells to
/// the right of it.
pub open spec fn holds(s: Machine, head: int, x: u32) -> bool {
    &&& s.at(head) == 1
    &&& has_bits(s, head, x)
}

/// Whether the 32 cells behind cell `head` hold the bits of `x`, bit `i` in
/// the cell `1 + i` cells to the right of `head`, whatever `head` holds.
pub open spec fn has_bits(s: Machine, head: int, x: u32) -> bool {
    forall|c: int|
        head < c <= head + 32 ==> #[trigger] (s.tape)(c) == bit_of(x, (c - head - 1) as u32)
}

/// The state `s` with the bits of `x` in the 32 cells behind cell `head`.
pub open spec fn with_bits(s: Machine, head: int, x: u32) -> Machine {
    Machine {
        tape: |c: int|
            if head < c <= head + 32 {
                bit_of(x, (c - head - 1) as u32) as u8
            } else {
                s.at(c)
            },
        ..s
    }
}

/// The state `s` with the 32-bit value `x` written with its head in cell
/// `head`.
pub open spec fn with_value(s: Machine, head: int, x: u32) -> Machine {
    Machine {
        tape: |c: int|
            if c == head {
                1u8
            } else if head < c <= head + 32 {
                bit_of(x, (c - head - 1) as u32) as u8
            } else {
                s.at(c)
            },
        ..s
    }
}

/// The state after an operation that takes two values and leaves one: the
/// result `r` where the left operand was, 0 in every cell of the right
/// operand, and the pointer on the former head of the right operand.
pub open spec fn binary_result(s: Machine, r: u32) -> Machine {
    Machine {
        tape: |c: int|
            if s.ptr - 66 < c <= s.ptr - 34 {
                bit_of(r, (c - (s.ptr - 66) - 1) as u32) as u8
            } else if s.ptr - 33 <= c < s.ptr {
                0u8
            } else {
                s.at(c)
            },
        ptr: s.ptr - 33,
        ..s
    }
}

/// A bit is 0 or 1, and a bit of the complement is the other one.
pub proof fn lemma_bits(x: u32)
    ensures
        forall|i: u32| i < 32 ==> #[trigger] bit_of(x, i) <= 1,
        forall|i: u32| i < 32 ==> #[trigger] bit_of(!x, i) == 1 - bit_of(x, i),
{
    assert forall|i: u32| i < 32 implies #[trigger] bit_of(x, i) <= 1 by {
        assert((x >> i) & 1 <= 1) by (bit_vector);
    }
    assert forall|i: u32| i < 32 implies #[trigger] bit_of(!x, i) == 1 - bit_of(x, i) by {
        assert(((!x) >> i) & 1 == 1 - ((x >> i) & 1)) by (bit_vector)
            requires
                i < 32,
        ;
    }
}

/// A value that was written is held, and writing the value that is held
/// changes nothing.
pub proof fn lemma_with_value(s: Machine, head: int, x: u32)
    ensures
        holds(with_value(s, head, x), head, x),
        holds(s, head, x) ==> with_value(s, head, x) == s,
{
    lemma_bits(x);
    let t = with_value(s, head, x);
    assert forall|c: int| head < c <= head + 32 implies #[trigger] (t.tape)(c) == bit_of(
        x,
        (c - head - 1) as u32,
    ) by {
        assert(bit_of(x, (c - head - 1) as u32) <= 1);
    }
    if holds(s, head, x) {
        assert(t.tape =~= s.tape);
        assert(t =~= s);
    }
}

/// The tape during the first pass of the complement, when the bits from 31
/// down to `i` are done: the cell of bit `i` holds 0, each cell to the right
/// of it holds the complement of the bit one place lower, and the rest is as
/// in `s`.
pub open spec fn not_flipped(s: Machine, head: int, x: u32, i: int) -> Machine {
    Machine {
        tape: |c: int|
            if head + i + 2 <= c <= head + 33 {
                (1 - bit_of(x, (c - head - 2) as u32)) as u8
            } else if c == head + i + 1 {
                0u8
            } else {
                s.at(c)
            },
        ..s
    }
}

/// The tape during the second pass of the complement, when the bits from 0
/// up to `i - 1` are done: their cells hold their complements, the cell of
/// bit `i` holds 0, and each cell to the right of it holds the complement of
/// the bit one place lower.
pub open spec fn not_restored(s: Machine, head: int, x: u32, i: int) -> Machine {
    Machine {
        tape: |c: int|
            if head + 1 <= c <= head + i {
                (1 - bit_of(x, (c - head - 1) as u32)) as u8
            } else if c == head + i + 1 {
                0u8
            } else if head + i + 2 <= c <= head + 33 {
                (1 - bit_of(x, (c - head - 2) as u32)) as u8
            } else {
                s.at(c)
            },
        ..s
    }
}

/// The first pass of the complement, from bit 31 down to bit `i`.
proof fn lemma_not_flip(s: Machine, x: u32, i: int)
    requires
        has_bits(s, s.ptr, x),
        s.slot(33) == 0,
        0 <= i <= 32,
    ensures
        runs(seq_down(i, 32, |i: int| not_flip_step(i)), s, not_flipped(s, s.ptr, x, i)),
    decreases 32 - i,
{
    let head = s.ptr;
    let after = not_flipped(s, head, x, i);
    lemma_bits(x);
    if i == 32 {
        lemma_runs_empty(s);
        assert(after.tape =~= s.tape);
        assert(after =~= s);
    } else {
        lemma_not_flip(s, x, i + 1);
        let before = not_flipped(s, head, x, i + 1);
        let raised = before.added(2 + i, 1);
        let body = add_code(1 + i, -1) + add_code(2 + i, -1);
        let b = bit_of(x, i as u32);
        assert(before.slot(1 + i) == b) by {
            assert(s.at(head + 1 + i) == bit_of(x, ((head + 1 + i) - head - 1) as u32));
        }
        lemma_runs_add(2 + i, 1, before);
        lemma_runs_add(1 + i, -1, raised);
        lemma_runs_add(2 + i, -1, raised.added(1 + i, -1));
        let lowered = raised.added(1 + i, -1).added(2 + i, -1);
        lemma_runs_concat(
            add_code(1 + i, -1),
            add_code(2 + i, -1),
            raised,
            raised.added(1 + i, -1),
            lowered,
        );
        let end = if b == 0 {
            raised
        } else {
            lowered
        };
        if b == 0 {
            lemma_runs_balanced(body, raised, lowered);
            lemma_while_skip(1 + i, body, raised);
        } else {
            lemma_while_once(1 + i, body, raised, lowered);
        }
        lemma_runs_concat(add_code(2 + i, 1), while_code(1 + i, body), before, raised, end);
        lemma_runs_concat(
            seq_down(i + 1, 32, |i: int| not_flip_step(i)),
            not_flip_step(i),
            s,
            before,
            end,
        );
        assert(end.tape =~= after.tape);
        assert(end =~= after);
    }
}

/// The second pass of the complement, from bit 0 up to bit `i - 1`.
proof fn lemma_not_restore(s: Machine, x: u32, i: int)
    requires
        0 <= i <= 32,
    ensures
        runs(
            seq_up(0, i, |i: int| not_restore_step(i)),
            not_flipped(s, s.ptr, x, 0),
            not_restored(s, s.ptr, x, i),
        ),
    decreases i,
{
    let head = s.ptr;
    let start = not_flipped(s, head, x, 0);
    let after = not_restored(s, head, x, i);
    lemma_bits(x);
    if i == 0 {
        lemma_runs_empty(start);
        assert(after.tape =~= start.tape);
        assert(after =~= start);
    } else {
        let k = i - 1;
        lemma_not_restore(s, x, k);
        let before = not_restored(s, head, x, k);
        let body = add_code(2 + k, -1) + add_code(1 + k, 1);
        let b = bit_of(x, k as u32);
        lemma_runs_add(2 + k, -1, before);
        lemma_runs_add(1 + k, 1, before.added(2 + k, -1));
        let moved = before.added(2 + k, -1).added(1 + k, 1);
        lemma_runs_concat(
            add_code(2 + k, -1),
            add_code(1 + k, 1),
            before,
            before.added(2 + k, -1),
            moved,
        );
        let end = if b == 1 {
            before
        } else {
            moved
        };
        if b == 1 {
            lemma_runs_balanced(body, before, moved);
            lemma_while_skip(2 + k, body, before);
        } else {
            lemma_while_once(2 + k, body, before, moved);
        }
        lemma_runs_concat(
            seq_up(0, k, |i: int| not_restore_step(i)),
            not_restore_step(k),
            start,
            before,
            end,
        );
        assert(end.tape =~= after.tape);
        assert(end =~= after);
    }
}

/// The complement routine is correct, whatever the head of the value
/// holds: started behind the bits of `x`, on a cell that holds 0, it ends in
/// the same place with the bits of `!x` where those of `x` were, and has
/// changed nothing else.
pub proof fn lemma_not_complements_bits(s: Machine, x: u32)
    requires
        has_bits(s, s.ptr - 33, x),
        s.cell() == 0,
    ensures
        runs(not_code(), s, with_bits(s, s.ptr - 33, !x)),
{
    let head = s.ptr - 33;
    let start = s.moved(-33);
    let flipped = not_flipped(start, head, x, 0);
    let restored = not_restored(start, head, x, 32);
    lemma_bits(x);
    lemma_runs_move(-33, s);
    lemma_not_flip(start, x, 0);
    lemma_not_restore(start, x, 32);
    lemma_runs_move(33, restored);
    lemma_runs_concat(
        move_code(-33),
        seq_down(0, 32, |i: int| not_flip_step(i)),
        s,
        start,
        flipped,
    );
    lemma_runs_concat(
        move_code(-33) + seq_down(0, 32, |i: int| not_flip_step(i)),
        seq_up(0, 32, |i: int| not_restore_step(i)),
        s,
        flipped,
        restored,
    );
    lemma_runs_concat(
        move_code(-33) + seq_down(0, 32, |i: int| not_flip_step(i)) + seq_up(
            0,
            32,
            |i: int| not_restore_step(i),
        ),
        move_code(33),
        s,
        restored,
        restored.moved(33),
    );
    let end = with_bits(s, head, !x);
    assert(restored.moved(33).tape =~= end.tape);
    assert(restored.moved(33) =~= end);
}

/// The complement routine is correct: started behind a value `x`, on a cell
/// that holds 0, it ends in the same place with `!x` where `x` was, and has
/// changed nothing else.
pub proof fn lemma_not_complements(s: Machine, x: u32)
    requires
        holds(s, s.ptr - 33, x),
        s.cell() == 0,
    ensures
        runs(not_code(), s, with_value(s, s.ptr - 33, !x)),
{
    lemma_not_complements_bits(s, x);
    let end = with_value(s, s.ptr - 33, !x);
    assert(with_bits(s, s.ptr - 33, !x).tape =~= end.tape);
    assert(with_bits(s, s.ptr - 33, !x) =~= end);
}

/// The complement of the complement is the value itself: the complement
/// routine run twice behind the bits of `x` leaves the tape, the pointer,
/// the input and the output exactly as they were.
pub proof fn lemma_not_twice(s: Machine, x: u32)
    requires
        has_bits(s, s.ptr - 33, x),
        s.cell() == 0,
    ensures
        runs(not_code() + not_code(), s, s),
        !(!x) == x,
{
    let head = s.ptr - 33;
    let once = with_bits(s, head, !x);
    lemma_not_complements_bits(s, x);
    lemma_bits(!x);
    assert forall|c: int| head < c <= head + 32 implies #[trigger] (once.tape)(c) == bit_of(
        !x,
        (c - head - 1) as u32,
    ) by {
        assert(bit_of(!x, (c - head - 1) as u32) <= 1);
    }
    lemma_not_complements_bits(once, !x);
    assert(!(!x) == x) by (bit_vector);
    let twice = with_bits(once, head, !(!x));
    lemma_runs_concat(not_code(), not_code(), s, once, twice);
    assert(twice.tape =~= s.tape);
    assert(twice =~= s);
}

/// Whether `code`, started behind the bits of a value `x` on a cell that
/// holds 0, always leaves the bits of `!x` where those of `x` were and
/// changes nothing else, whatever the head of the value holds.
pub open spec fn complements(code: Seq<BfCmd>) -> bool {
    forall|s: Machine, x: u32|
        has_bits(s, s.ptr - 33, x) && s.cell() == 0 ==> #[trigger] runs(
            code,
            s,
            with_bits(s, s.ptr - 33, !x),
        )
}

/// The complement routine complements.
pub proof fn lemma_not_is_complement()
    ensures
        complements(not_code()),
{
    assert forall|s: Machine, x: u32|
        has_bits(s, s.ptr - 33, x) && s.cell() == 0 implies #[trigger] runs(
        not_code(),
        s,
        with_bits(s, s.ptr - 33, !x),
    ) by {
        lemma_not_complements_bits(s, x);
    }
}

} // verus!
