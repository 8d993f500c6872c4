//! What the constant load and the increment do when their code runs on the
//! tape machine.
use crate::command::BfCmd;
use crate::effect::arith::{holds, lemma_bits, with_value};
use crate::effect::{lemma_runs_add, lemma_runs_move, lemma_runs_set};
use crate::generator::arith::{bit_of, const_code, const_step, inc_code, seq_up};
use crate::generator::control::{carry_code, incs_code, set_code};
use crate::generator::{add_code, move_code};
use crate::machine::{
    lemma_loop_skip, lemma_loop_turn, lemma_runs_balanced, lemma_runs_concat, lemma_runs_empty,
    lemma_runs_one, runs, Machine,
};
use vstd::prelude::*;

verus! {

/// The tape during a constant load, when the head and the bits below `i` are
/// written.
pub open spec fn const_written(s: Machine, x: u32, i: int) -> Machine {
    Machine {
        tape: |c: int|
            if c == s.ptr {
                1u8
            } else if s.ptr < c <= s.ptr + i {
                bit_of(x, (c - s.ptr - 1) as u32) as u8
            } else {
                s.at(c)
            },
        ..s
    }
}

/// Writing the bits of a constant from bit 0 up to bit `i - 1`.
proof fn lemma_const_bits(s: Machine, a: i32, i: int)
    requires
        0 <= i <= 32,
        forall|c: int| s.ptr < c <= s.ptr + 32 ==> #[trigger] (s.tape)(c) == 0,
        s.cell() == 1,
    ensures
        runs(seq_up(0, i, |i: int| const_step(a as u32, i)), s, const_written(s, a as u32, i)),
    decreases i,
{
    let x = a as u32;
    let after = const_written(s, x, i);
    lemma_bits(x);
    if i == 0 {
        lemma_runs_empty(s);
        assert(after.tape =~= s.tape);
        assert(after =~= s);
    } else {
        let k = i - 1;
        lemma_const_bits(s, a, k);
        let before = const_written(s, x, k);
        lemma_runs_add(1 + k, bit_of(x, k as u32) as int, before);
        let end = before.added(1 + k, bit_of(x, k as u32) as int);
        lemma_runs_concat(
            seq_up(0, k, |i: int| const_step(a as u32, i)),
            const_step(x, k),
            s,
            before,
            end,
        );
        assert((s.tape)(s.ptr + 1 + k) == 0);
        assert(bit_of(x, k as u32) <= 1);
        assert(end.tape =~= after.tape);
        assert(end =~= after);
    }
}

/// The constant load is correct: started on the first of 33 cells that hold
/// 0, it leaves the value `a` in them and the pointer behind them.
pub proof fn lemma_const_loads(s: Machine, a: i32)
    requires
        forall|c: int| s.ptr <= c <= s.ptr + 32 ==> #[trigger] (s.tape)(c) == 0,
    ensures
        runs(const_code(a), s, with_value(s, s.ptr, a as u32).moved(33)),
{
    let raised = s.added(0, 1);
    lemma_runs_add(0, 1, s);
    assert((s.tape)(s.ptr) == 0);
    lemma_const_bits(raised, a, 32);
    let written = const_written(raised, a as u32, 32);
    lemma_runs_move(33, written);
    lemma_runs_concat(
        add_code(0, 1),
        seq_up(0, 32, |i: int| const_step(a as u32, i)),
        s,
        raised,
        written,
    );
    lemma_runs_concat(
        add_code(0, 1) + seq_up(0, 32, |i: int| const_step(a as u32, i)),
        move_code(33),
        s,
        written,
        written.moved(33),
    );
    let goal = with_value(s, s.ptr, a as u32).moved(33);
    assert(written.moved(33).tape =~= goal.tape);
    assert(written.moved(33) =~= goal);
}

/// The scan `[>]`: the pointer moves right over `j` cells that do not hold 0
/// and stops on the cell behind them, which does.
proof fn lemma_scan_right(s: Machine, j: int)
    requires
        0 <= j,
        forall|c: int| s.ptr <= c < s.ptr + j ==> #[trigger] (s.tape)(c) != 0,
        s.slot(j) == 0,
    ensures
        runs(seq![BfCmd::Open] + seq![BfCmd::Right] + seq![BfCmd::Close], s, s.moved(j)),
    decreases j,
{
    let body = seq![BfCmd::Right];
    lemma_runs_one(BfCmd::Right, s);
    lemma_runs_balanced(body, s, s.moved(1));
    if j == 0 {
        lemma_loop_skip(body, s);
        assert(s.moved(0) =~= s);
    } else {
        assert((s.tape)(s.ptr) != 0);
        lemma_scan_right(s.moved(1), j - 1);
        assert(s.moved(1).moved(j - 1) =~= s.moved(j));
        lemma_loop_turn(body, s, s.moved(1), s.moved(j));
    }
}

/// The state after `[-<]` has cleared `j` cells from the pointer leftwards.
pub open spec fn cleared_left(s: Machine, j: int) -> Machine {
    Machine {
        tape: |c: int|
            if s.ptr - j < c <= s.ptr {
                0u8
            } else {
                s.at(c)
            },
        ptr: s.ptr - j,
        ..s
    }
}

/// The sweep `[-<]`: the pointer moves left over `j` cells that hold 1,
/// leaves 0 in each, and stops on the cell before them, which holds 0.
proof fn lemma_clear_left(s: Machine, j: int)
    requires
        0 <= j,
        forall|c: int| s.ptr - j < c <= s.ptr ==> #[trigger] (s.tape)(c) == 1,
        s.slot(-j) == 0,
    ensures
        runs(
            seq![BfCmd::Open] + seq![BfCmd::Dec, BfCmd::Left] + seq![BfCmd::Close],
            s,
            cleared_left(s, j),
        ),
    decreases j,
{
    let body = seq![BfCmd::Dec, BfCmd::Left];
    let lowered = s.added(0, -1);
    let next = lowered.moved(-1);
    lemma_runs_one(BfCmd::Dec, s);
    lemma_runs_one(BfCmd::Left, lowered);
    lemma_runs_concat(seq![BfCmd::Dec], seq![BfCmd::Left], s, lowered, next);
    assert(seq![BfCmd::Dec] + seq![BfCmd::Left] =~= body);
    lemma_runs_balanced(body, s, next);
    let after = cleared_left(s, j);
    if j == 0 {
        lemma_loop_skip(body, s);
        assert(after.tape =~= s.tape);
        assert(after =~= s);
    } else {
        assert((s.tape)(s.ptr) == 1);
        lemma_clear_left(next, j - 1);
        let end = cleared_left(next, j - 1);
        assert(end.tape =~= after.tape);
        assert(end =~= after);
        lemma_loop_turn(body, s, next, after);
    }
}

/// The state after the carry chain has run over `j` cells that hold 1: they
/// hold 0, and the cell behind them holds 1.
pub open spec fn carried(s: Machine, j: int) -> Machine {
    Machine {
        tape: |c: int|
            if s.ptr <= c < s.ptr + j {
                0u8
            } else if c == s.ptr + j {
                1u8
            } else {
                s.at(c)
            },
        ..s
    }
}

/// The carry chain is correct: started on the lowest of `j` cells that hold
/// 1, with 0 behind them and 0 before them, it clears them, sets the cell
/// behind them, and comes back.
pub proof fn lemma_carry_chain(s: Machine, j: int)
    requires
        0 <= j,
        forall|c: int| s.ptr <= c < s.ptr + j ==> #[trigger] (s.tape)(c) == 1,
        s.slot(j) == 0,
        s.slot(-1) == 0,
    ensures
        runs(carry_code(), s, carried(s, j)),
{
    let scan = seq![BfCmd::Open] + seq![BfCmd::Right] + seq![BfCmd::Close];
    let sweep = seq![BfCmd::Open] + seq![BfCmd::Dec, BfCmd::Left] + seq![BfCmd::Close];
    assert forall|c: int| s.ptr <= c < s.ptr + j implies #[trigger] (s.tape)(c) != 0 by {
        assert((s.tape)(c) == 1);
    }
    lemma_scan_right(s, j);
    let found = s.moved(j);
    let set = found.added(0, 1);
    let back = set.moved(-1);
    lemma_runs_one(BfCmd::Inc, found);
    lemma_runs_one(BfCmd::Left, set);
    assert forall|c: int| back.ptr - j < c <= back.ptr implies #[trigger] (back.tape)(c) == 1 by {
        assert((s.tape)(c) == 1);
    }
    lemma_clear_left(back, j);
    let swept = cleared_left(back, j);
    lemma_runs_one(BfCmd::Right, swept);
    let end = swept.moved(1);
    lemma_runs_concat(scan, seq![BfCmd::Inc], s, found, set);
    lemma_runs_concat(scan + seq![BfCmd::Inc], seq![BfCmd::Left], s, set, back);
    lemma_runs_concat(scan + seq![BfCmd::Inc] + seq![BfCmd::Left], sweep, s, back, swept);
    lemma_runs_concat(
        scan + seq![BfCmd::Inc] + seq![BfCmd::Left] + sweep,
        seq![BfCmd::Right],
        s,
        swept,
        end,
    );
    assert(scan + seq![BfCmd::Inc] + seq![BfCmd::Left] + sweep + seq![BfCmd::Right]
        =~= carry_code());
    let goal = carried(s, j);
    assert(end.tape =~= goal.tape);
    assert(end =~= goal);
}

/// Whether the bits of `x` below bit `i` are all set.
pub open spec fn low_ones(x: u32, i: u32) -> bool {
    x & (((1u64 << i) - 1) as u32) == ((1u64 << i) - 1) as u32
}

/// The number of set bits of `x` from bit `i` up to the first bit that is
/// not set: how far a carry into bit `i` runs.
pub open spec fn carry_length(x: u32, i: int) -> int
    decreases 32 - i,
{
    if i < 0 || i >= 32 || bit_of(x, i as u32) == 0 {
        0
    } else {
        1 + carry_length(x, i + 1)
    }
}

/// A carry into bit `i` runs over set bits only, stops on a bit that is not
/// set or behind bit 31, and the bits below where it stops are all set if
/// those below bit `i` are.
proof fn lemma_carry_length(x: u32, i: int)
    requires
        0 <= i <= 32,
        low_ones(x, i as u32),
    ensures
        i + carry_length(x, i) <= 32,
        carry_length(x, i) >= 0,
        forall|k: int| i <= k < i + carry_length(x, i) ==> bit_of(x, #[trigger] (k as u32)) == 1,
        i + carry_length(x, i) < 32 ==> bit_of(x, (i + carry_length(x, i)) as u32) == 0,
        low_ones(x, (i + carry_length(x, i)) as u32),
    decreases 32 - i,
{
    if i < 32 && bit_of(x, i as u32) != 0 {
        lemma_bits(x);
        let j = i as u32;
        assert(low_ones(x, (j + 1) as u32)) by (bit_vector)
            requires
                j < 32,
                low_ones(x, j),
                bit_of(x, j) == 1,
        ;
        lemma_carry_length(x, i + 1);
        assert forall|k: int| i <= k < i + carry_length(x, i) implies bit_of(
            x,
            #[trigger] (k as u32),
        ) == 1 by {
            if k > i {
                assert(bit_of(x, k as u32) == 1);
            }
        }
    }
}

/// The bits of `x + 1`: bit `i` is flipped if the bits below it are all
/// set, and as in `x` if not.
proof fn lemma_successor_bits(x: u32, n: u32)
    requires
        n <= 32,
        low_ones(x, n),
        n < 32 ==> bit_of(x, n) == 0,
    ensures
        forall|i: u32|
            i < 32 ==> #[trigger] bit_of((x + 1) as u32, i) == if i < n {
                0
            } else if i == n {
                1
            } else {
                bit_of(x, i)
            },
{
    assert forall|i: u32| i < 32 implies #[trigger] bit_of((x + 1) as u32, i) == if i < n {
        0
    } else if i == n {
        1
    } else {
        bit_of(x, i)
    } by {
        assert(bit_of((x + 1) as u32, i) == if i < n {
            0
        } else if i == n {
            1
        } else {
            bit_of(x, i)
        }) by (bit_vector)
            requires
                i < 32,
                n <= 32,
                low_ones(x, n),
                n < 32 ==> bit_of(x, n) == 0,
        ;
    }
}

/// The state after the carry chain has added one to the number `y` whose
/// bits lie behind the pointer: the bits of `y + 1`, wrapped to 32 bits, and
/// the carry out of bit 31 in the cell behind them.
pub open spec fn incremented(s: Machine, y: u32) -> Machine {
    Machine {
        tape: |c: int|
            if s.ptr < c <= s.ptr + 32 {
                bit_of((y + 1) as u32, (c - s.ptr - 1) as u32) as u8
            } else if c == s.ptr + 33 {
                if y == 0xffff_ffff {
                    1u8
                } else {
                    0u8
                }
            } else {
                s.at(c)
            },
        ..s
    }
}

/// The carry chain adds one: started with 0 in the slot before slot `p`,
/// the bits of `y` from slot `p` on and 0 in the slot behind them,
/// `incs_code(p)` leaves the bits of `y + 1` and the carry out of bit 31
/// behind them, and the pointer where it was.
pub proof fn lemma_incs_increments(p: int, s: Machine, y: u32)
    requires
        s.slot(p - 1) == 0,
        forall|c: int|
            s.ptr + p <= c < s.ptr + p + 32 ==> #[trigger] (s.tape)(c) == bit_of(
                y,
                (c - s.ptr - p) as u32,
            ),
        s.slot(p + 32) == 0,
    ensures
        runs(incs_code(p), s, incremented(s.moved(p - 1), y).moved(1 - p)),
{
    let head = s.ptr + p - 1;
    let entered = s.moved(p);
    assert(low_ones(y, 0)) by (bit_vector);
    lemma_carry_length(y, 0);
    let j = carry_length(y, 0);
    lemma_bits(y);
    lemma_successor_bits(y, j as u32);
    lemma_bits((y + 1) as u32);
    lemma_runs_move(p, s);
    assert forall|c: int| entered.ptr <= c < entered.ptr + j implies #[trigger] (entered.tape)(c)
        == 1 by {
        assert((s.tape)(c) == bit_of(y, (c - s.ptr - p) as u32));
        assert(bit_of(y, ((c - head - 1) as int) as u32) == 1);
    }
    assert(entered.slot(j) == 0) by {
        if j < 32 {
            assert((s.tape)(head + 1 + j) == bit_of(y, ((head + 1 + j) - s.ptr - p) as u32));
        }
    }
    lemma_carry_chain(entered, j);
    let chained = carried(entered, j);
    lemma_runs_move(-p, chained);
    let end = chained.moved(-p);
    lemma_runs_concat(move_code(p), carry_code(), s, entered, chained);
    lemma_runs_concat(move_code(p) + carry_code(), move_code(-p), s, chained, end);
    let goal = incremented(s.moved(p - 1), y).moved(1 - p);
    assert(j == 32 <==> y == 0xffff_ffff) by {
        assert(low_ones(y, 32) <==> y == 0xffff_ffff) by (bit_vector);
        if j < 32 {
            let k = j as u32;
            assert(bit_of(y, k) == 0 ==> y != 0xffff_ffff) by (bit_vector)
                requires
                    k < 32,
            ;
        }
    }
    assert forall|c: int| #[trigger] (end.tape)(c) == (goal.tape)(c) by {
        if head < c <= head + 32 {
            assert((s.tape)(c) == bit_of(y, (c - s.ptr - p) as u32));
            let i = (c - head - 1) as u32;
            assert(bit_of((y + 1) as u32, i) == if i < j as u32 {
                0
            } else if i == j as u32 {
                1
            } else {
                bit_of(y, i)
            });
        }
    }
    assert(end.tape =~= goal.tape);
    assert(end =~= goal);
}

/// The increment is correct: started behind a value `x`, on a cell that
/// holds 0, it leaves `x + 1`, wrapped to 32 bits, where `x` was, and 0 in
/// the cell behind it; the pointer ends where it started.
pub proof fn lemma_inc_increments(s: Machine, x: u32)
    requires
        holds(s, s.ptr - 33, x),
        s.cell() == 0,
    ensures
        runs(inc_code(), s, with_value(s, s.ptr - 33, (x + 1) as u32)),
{
    let start = s.moved(-33);
    let lowered = start.added(0, -1);
    lemma_bits(x);
    lemma_bits((x + 1) as u32);
    lemma_runs_move(-33, s);
    lemma_runs_add(0, -1, start);
    assert forall|c: int| lowered.ptr < c <= lowered.ptr + 32 implies #[trigger] (lowered.tape)(c)
        == bit_of(x, (c - lowered.ptr - 1) as u32) by {
        assert((s.tape)(c) == bit_of(x, (c - (s.ptr - 33) - 1) as u32));
    }
    assert forall|c: int| lowered.ptr + 1 <= c < lowered.ptr + 1 + 32 implies #[trigger] (
    lowered.tape)(c) == bit_of(x, (c - lowered.ptr - 1) as u32) by {
        assert((s.tape)(c) == bit_of(x, (c - (s.ptr - 33) - 1) as u32));
    }
    lemma_incs_increments(1, lowered, x);
    assert(lowered.moved(0) =~= lowered);
    let left = incremented(lowered, x);
    assert(incremented(lowered.moved(0), x).moved(0) =~= left);
    lemma_runs_add(0, 1, left);
    let raised = left.added(0, 1);
    lemma_runs_set(33, 0, raised);
    let end = raised.with_cell(raised.ptr + 33, 0);
    lemma_runs_move(33, end);
    lemma_runs_concat(move_code(-33), add_code(0, -1), s, start, lowered);
    lemma_runs_concat(move_code(-33) + add_code(0, -1), incs_code(1), s, lowered, left);
    lemma_runs_concat(
        move_code(-33) + add_code(0, -1) + incs_code(1),
        add_code(0, 1),
        s,
        left,
        raised,
    );
    lemma_runs_concat(
        move_code(-33) + add_code(0, -1) + incs_code(1) + add_code(0, 1),
        set_code(33, 0),
        s,
        raised,
        end,
    );
    lemma_runs_concat(
        move_code(-33) + add_code(0, -1) + incs_code(1) + add_code(0, 1) + set_code(33, 0),
        move_code(33),
        s,
        end,
        end.moved(33),
    );
    let goal = with_value(s, s.ptr - 33, (x + 1) as u32);
    assert(end.moved(33).tape =~= goal.tape);
    assert(end.moved(33) =~= goal);
}

/// Whether `code`, started on the first of 33 cells that hold 0, always
/// leaves the value `a` in them and the pointer behind them.
pub open spec fn loads(code: Seq<BfCmd>, a: i32) -> bool {
    forall|s: Machine|
        (forall|c: int| s.ptr <= c <= s.ptr + 32 ==> #[trigger] (s.tape)(c) == 0)
            ==> #[trigger] runs(
            code,
            s,
            with_value(s, s.ptr, a as u32).moved(33),
        )
}

/// Whether `code`, started with 0 in the slot before slot `p`, the bits of
/// a number from slot `p` on and 0 in the slot behind them, always adds one
/// to the number, leaves the carry out of bit 31 in the slot behind the
/// bits, and the pointer where it was.
pub open spec fn carries(code: Seq<BfCmd>, p: int) -> bool {
    forall|s: Machine, y: u32|
        s.slot(p - 1) == 0 && s.slot(p + 32) == 0 && (forall|c: int|
            s.ptr + p <= c < s.ptr + p + 32 ==> #[trigger] (s.tape)(c) == bit_of(
                y,
                (c - s.ptr - p) as u32,
            )) ==> #[trigger] runs(code, s, incremented(s.moved(p - 1), y).moved(1 - p))
}

/// Whether `code` is a carry chain at slot `p`, for numbers of any length:
/// started with 0 in the slot before slot `p`, 1 in `j` slots from slot `p`
/// on and 0 in the slot behind them, it always leaves 0 in these `j` slots
/// and 1 in the slot behind them, and the pointer where it was.
pub open spec fn ripples(code: Seq<BfCmd>, p: int) -> bool {
    forall|s: Machine, j: int|
        0 <= j && s.slot(p - 1) == 0 && s.slot(p + j) == 0 && (forall|c: int|
            s.ptr + p <= c < s.ptr + p + j ==> #[trigger] (s.tape)(c) == 1) ==> #[trigger] runs(
            code,
            s,
            carried(s.moved(p), j).moved(-p),
        )
}

/// The carry chain at any slot ripples.
pub proof fn lemma_incs_ripples(p: int)
    ensures
        ripples(incs_code(p), p),
{
    assert forall|s: Machine, j: int|
        0 <= j && s.slot(p - 1) == 0 && s.slot(p + j) == 0 && (forall|c: int|
            s.ptr + p <= c < s.ptr + p + j ==> #[trigger] (s.tape)(c) == 1) implies #[trigger] runs(
        incs_code(p),
        s,
        carried(s.moved(p), j).moved(-p),
    ) by {
        let entered = s.moved(p);
        lemma_runs_move(p, s);
        assert forall|c: int| entered.ptr <= c < entered.ptr + j implies #[trigger] (
        entered.tape)(c) == 1 by {
            assert((s.tape)(c) == 1);
        }
        lemma_carry_chain(entered, j);
        let chained = carried(entered, j);
        lemma_runs_move(-p, chained);
        lemma_runs_concat(move_code(p), carry_code(), s, entered, chained);
        lemma_runs_concat(
            move_code(p) + carry_code(),
            move_code(-p),
            s,
            chained,
            chained.moved(-p),
        );
    }
}

/// Whether `code`, started behind a value `x` on a cell that holds 0,
/// always leaves `x + 1`, wrapped to 32 bits, where `x` was, 0 in the cell
/// behind it, and the pointer where it was.
pub open spec fn increments(code: Seq<BfCmd>) -> bool {
    forall|s: Machine, x: u32|
        holds(s, s.ptr - 33, x) && s.cell() == 0 ==> #[trigger] runs(
            code,
            s,
            with_value(s, s.ptr - 33, (x + 1) as u32),
        )
}

/// The constant load loads, the carry chain carries, and the increment
/// increments.
pub proof fn lemma_successor(a: i32, p: int)
    ensures
        loads(const_code(a), a),
        carries(incs_code(p), p),
        increments(inc_code()),
{
    assert forall|s: Machine|
        (forall|c: int| s.ptr <= c <= s.ptr + 32 ==> #[trigger] (s.tape)(c) == 0) implies #[trigger]
        runs(const_code(a), s, with_value(s, s.ptr, a as u32).moved(33)) by {
        lemma_const_loads(s, a);
    }
    assert forall|s: Machine, y: u32|
        s.slot(p - 1) == 0 && s.slot(p + 32) == 0 && (forall|c: int|
            s.ptr + p <= c < s.ptr + p + 32 ==> #[trigger] (s.tape)(c) == bit_of(
                y,
                (c - s.ptr - p) as u32,
            )) implies #[trigger] runs(
        incs_code(p),
        s,
        incremented(s.moved(p - 1), y).moved(1 - p),
    ) by {
        lemma_incs_increments(p, s, y);
    }
    assert forall|s: Machine, x: u32| holds(s, s.ptr - 33, x) && s.cell() == 0 implies #[trigger]
        runs(inc_code(), s, with_value(s, s.ptr - 33, (x + 1) as u32)) by {
        lemma_inc_increments(s, x);
    }
}

} // verus!
