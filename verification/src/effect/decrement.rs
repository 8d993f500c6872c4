//! What the borrow chain does when it runs on the tape machine.
use crate::command::BfCmd;
use crate::effect::arith::lemma_bits;
use crate::effect::dispatch::{lemma_runs_strides, lemma_strides, stride_cell};
use crate::effect::lemma_runs_move;
use crate::generator::arith::bit_of;
use crate::generator::control::{borrow_code, decs_code};
use crate::generator::move_code;
use crate::machine::{
    after_plain, lemma_loop_skip, lemma_loop_turn, lemma_runs_balanced, lemma_runs_concat,
    lemma_runs_one, lemma_runs_plain, runs, Machine,
};
use vstd::prelude::*;

verus! {

/// The state after the loop `[++>-]` has run over `j` cells: each holds 1,
/// the cell behind them holds 0, and the pointer is on that cell.
pub open spec fn lent(s: Machine, j: int) -> Machine {
    Machine {
        tape: |c: int|
            if s.ptr <= c < s.ptr + j {
                1u8
            } else if c == s.ptr + j {
                0u8
            } else {
                s.at(c)
            },
        ptr: s.ptr + j,
        ..s
    }
}

/// The loop `[++>-]`: started on a cell that was lowered from 0 to 255,
/// with cells that hold 0 behind it up to one that holds 1, it raises each
/// to 1 and lowers the one that held 1 to 0. Started on a cell that holds 0
/// it does nothing.
proof fn lemma_lend(s: Machine, j: int)
    requires
        0 <= j,
        j == 0 ==> s.cell() == 0,
        j > 0 ==> s.cell() == 255 && s.slot(j) == 1,
        forall|c: int| s.ptr < c < s.ptr + j ==> #[trigger] (s.tape)(c) == 0,
    ensures
        runs(
            seq![BfCmd::Open] + seq![BfCmd::Inc, BfCmd::Inc, BfCmd::Right, BfCmd::Dec]
                + seq![BfCmd::Close],
            s,
            lent(s, j),
        ),
    decreases j,
{
    let body = seq![BfCmd::Inc, BfCmd::Inc, BfCmd::Right, BfCmd::Dec];
    let goal = lent(s, j);
    reveal_with_fuel(after_plain, 5);
    lemma_runs_plain(body, s);
    let next = after_plain(body, s);
    lemma_runs_balanced(body, s, next);
    if j == 0 {
        lemma_loop_skip(body, s);
        assert(goal.tape =~= s.tape);
        assert(goal =~= s);
    } else {
        let raised = s.with_cell(s.ptr, 1);
        let lowered = Machine {
            ptr: s.ptr + 1,
            ..raised.with_cell(
                s.ptr + 1,
                if j == 1 {
                    0u8
                } else {
                    255u8
                },
            )
        };
        if j > 1 {
            assert((s.tape)(s.ptr + 1) == 0);
        }
        assert(next.tape =~= lowered.tape);
        assert(next =~= lowered);
        lemma_lend(lowered, j - 1);
        let end = lent(lowered, j - 1);
        assert(end.tape =~= goal.tape);
        assert(end =~= goal);
        lemma_loop_turn(body, s, lowered, goal);
    }
}

/// The state after the borrow chain has run over `j` cells that hold 0 and
/// one that holds 1: the first `j` hold 1, and the one behind them holds 0.
pub open spec fn borrowed(s: Machine, j: int) -> Machine {
    Machine {
        tape: |c: int|
            if s.ptr <= c < s.ptr + j {
                1u8
            } else if c == s.ptr + j {
                0u8
            } else {
                s.at(c)
            },
        ..s
    }
}

/// The borrow chain is correct: started on the lowest of `j` cells that
/// hold 0, with 1 behind them and 0 before them, it sets them, clears the
/// cell behind them, and comes back.
pub proof fn lemma_borrow_chain(s: Machine, j: int)
    requires
        0 <= j,
        forall|c: int| s.ptr <= c < s.ptr + j ==> #[trigger] (s.tape)(c) == 0,
        s.slot(j) == 1,
        s.slot(-1) == 0,
    ensures
        runs(borrow_code(), s, borrowed(s, j)),
{
    let lend = seq![BfCmd::Open] + seq![BfCmd::Inc, BfCmd::Inc, BfCmd::Right, BfCmd::Dec]
        + seq![BfCmd::Close];
    let back = seq![BfCmd::Open] + move_code(-1) + seq![BfCmd::Close];
    // `-`
    let first = s.added(0, -1);
    lemma_runs_one(BfCmd::Dec, s);
    if j > 0 {
        assert((s.tape)(s.ptr) == 0);
    }
    assert forall|c: int| first.ptr < c < first.ptr + j implies #[trigger] (first.tape)(c)
        == 0 by {
        assert((s.tape)(c) == 0);
    }
    // `[++>-]`
    lemma_lend(first, j);
    let passed = lent(first, j);
    // `<`
    let left = passed.moved(-1);
    lemma_runs_one(BfCmd::Left, passed);
    // `[<]`: back over the cells that hold 1 to the cell before them
    assert forall|i: int| 0 <= i < j implies #[trigger] stride_cell(left, -1, i) != 0 by {
        assert(left.ptr + i * (-1) == s.ptr + j - 1 - i);
    }
    assert(stride_cell(left, -1, j) == 0);
    lemma_strides(left, -1, j as nat);
    lemma_runs_strides(left, -1, j as nat);
    let before = left.moved(j * (-1));
    // `>`
    let end = before.moved(1);
    lemma_runs_one(BfCmd::Right, before);
    lemma_runs_concat(seq![BfCmd::Dec], lend, s, first, passed);
    lemma_runs_concat(seq![BfCmd::Dec] + lend, seq![BfCmd::Left], s, passed, left);
    lemma_runs_concat(seq![BfCmd::Dec] + lend + seq![BfCmd::Left], back, s, left, before);
    lemma_runs_concat(
        seq![BfCmd::Dec] + lend + seq![BfCmd::Left] + back,
        seq![BfCmd::Right],
        s,
        before,
        end,
    );
    assert(move_code(-1) =~= seq![BfCmd::Left]);
    assert(seq![BfCmd::Dec] + lend + seq![BfCmd::Left] + back + seq![BfCmd::Right]
        =~= borrow_code());
    let goal = borrowed(s, j);
    assert(end.tape =~= goal.tape);
    assert(end =~= goal);
}

/// Whether the bits of `x` below bit `i` are all clear.
pub open spec fn low_zeros(x: u32, i: u32) -> bool {
    x & (((1u64 << i) - 1) as u32) == 0
}

/// The number of clear bits of `x` from bit `i` up to the first bit that is
/// set: how far a borrow from bit `i` runs.
pub open spec fn borrow_length(x: u32, i: int) -> int
    decreases 32 - i,
{
    if i < 0 || i >= 32 || bit_of(x, i as u32) == 1 {
        0
    } else {
        1 + borrow_length(x, i + 1)
    }
}

/// A borrow from bit `i` of a number that is not 0, whose bits below `i` are
/// clear, runs over clear bits only and stops on a bit that is set.
proof fn lemma_borrow_length(x: u32, i: int)
    requires
        0 <= i < 32,
        x != 0,
        low_zeros(x, i as u32),
    ensures
        i + borrow_length(x, i) < 32,
        borrow_length(x, i) >= 0,
        forall|k: int| i <= k < i + borrow_length(x, i) ==> bit_of(x, #[trigger] (k as u32)) == 0,
        bit_of(x, (i + borrow_length(x, i)) as u32) == 1,
        low_zeros(x, (i + borrow_length(x, i)) as u32),
    decreases 32 - i,
{
    lemma_bits(x);
    if bit_of(x, i as u32) != 1 {
        let j = i as u32;
        assert(low_zeros(x, (j + 1) as u32) && j < 31) by (bit_vector)
            requires
                j < 32,
                x != 0,
                low_zeros(x, j),
                bit_of(x, j) == 0,
        ;
        lemma_borrow_length(x, i + 1);
        assert forall|k: int| i <= k < i + borrow_length(x, i) implies bit_of(
            x,
            #[trigger] (k as u32),
        ) == 0 by {
            if k > i {
                assert(bit_of(x, k as u32) == 0);
            }
        }
    }
}

/// The bits of `x - 1`: bit `i` is flipped if the bits below it are all
/// clear, and as in `x` if not.
proof fn lemma_predecessor_bits(x: u32, n: u32)
    requires
        n < 32,
        low_zeros(x, n),
        bit_of(x, n) == 1,
    ensures
        forall|i: u32|
            i < 32 ==> #[trigger] bit_of((x - 1) as u32, i) == if i < n {
                1
            } else if i == n {
                0
            } else {
                bit_of(x, i)
            },
{
    assert forall|i: u32| i < 32 implies #[trigger] bit_of((x - 1) as u32, i) == if i < n {
        1
    } else if i == n {
        0
    } else {
        bit_of(x, i)
    } by {
        assert(bit_of((x - 1) as u32, i) == if i < n {
            1
        } else if i == n {
            0
        } else {
            bit_of(x, i)
        }) by (bit_vector)
            requires
                i < 32,
                n < 32,
                low_zeros(x, n),
                bit_of(x, n) == 1,
        ;
    }
}

/// The state after the borrow chain has subtracted one from the number `y`
/// whose bits lie behind the pointer: the bits of `y - 1`.
pub open spec fn decremented(s: Machine, y: u32) -> Machine {
    Machine {
        tape: |c: int|
            if s.ptr < c <= s.ptr + 32 {
                bit_of((y - 1) as u32, (c - s.ptr - 1) as u32) as u8
            } else {
                s.at(c)
            },
        ..s
    }
}

/// The borrow chain subtracts one: started with 0 in the slot before slot
/// `p` and the bits of a number `y` that is not 0 from slot `p` on,
/// `decs_code(p)` leaves the bits of `y - 1`, and the pointer where it was.
pub proof fn lemma_decs_decrements(p: int, s: Machine, y: u32)
    requires
        y != 0,
        s.slot(p - 1) == 0,
        forall|c: int|
            s.ptr + p <= c < s.ptr + p + 32 ==> #[trigger] (s.tape)(c) == bit_of(
                y,
                (c - s.ptr - p) as u32,
            ),
    ensures
        runs(decs_code(p), s, decremented(s.moved(p - 1), y).moved(1 - p)),
{
    let head = s.ptr + p - 1;
    let entered = s.moved(p);
    assert(low_zeros(y, 0)) by (bit_vector);
    lemma_borrow_length(y, 0);
    let j = borrow_length(y, 0);
    lemma_bits(y);
    lemma_predecessor_bits(y, j as u32);
    lemma_bits((y - 1) as u32);
    lemma_runs_move(p, s);
    assert forall|c: int| entered.ptr <= c < entered.ptr + j implies #[trigger] (entered.tape)(c)
        == 0 by {
        assert((s.tape)(c) == bit_of(y, (c - s.ptr - p) as u32));
        assert(bit_of(y, ((c - head - 1) as int) as u32) == 0);
    }
    assert(entered.slot(j) == 1) by {
        assert((s.tape)(head + 1 + j) == bit_of(y, ((head + 1 + j) - s.ptr - p) as u32));
    }
    lemma_borrow_chain(entered, j);
    let chained = borrowed(entered, j);
    lemma_runs_move(-p, chained);
    let end = chained.moved(-p);
    lemma_runs_concat(move_code(p), borrow_code(), s, entered, chained);
    lemma_runs_concat(move_code(p) + borrow_code(), move_code(-p), s, chained, end);
    let goal = decremented(s.moved(p - 1), y).moved(1 - p);
    assert forall|c: int| #[trigger] (end.tape)(c) == (goal.tape)(c) by {
        if head < c <= head + 32 {
            assert((s.tape)(c) == bit_of(y, (c - s.ptr - p) as u32));
            let i = (c - head - 1) as u32;
            assert(bit_of((y - 1) as u32, i) == if i < j as u32 {
                1
            } else if i == j as u32 {
                0
            } else {
                bit_of(y, i)
            });
        }
    }
    assert(end.tape =~= goal.tape);
    assert(end =~= goal);
}

/// Whether `code` is a borrow chain at slot `p`, for numbers of any length:
/// started with 0 in the slot before slot `p`, 0 in `j` slots from slot `p`
/// on and 1 in the slot behind them, it always leaves 1 in these `j` slots
/// and 0 in the slot behind them, and the pointer where it was.
pub open spec fn lends(code: Seq<BfCmd>, p: int) -> bool {
    forall|s: Machine, j: int|
        0 <= j && s.slot(p - 1) == 0 && s.slot(p + j) == 1 && (forall|c: int|
            s.ptr + p <= c < s.ptr + p + j ==> #[trigger] (s.tape)(c) == 0) ==> #[trigger] runs(
            code,
            s,
            borrowed(s.moved(p), j).moved(-p),
        )
}

/// The borrow chain at any slot lends.
pub proof fn lemma_decs_lends(p: int)
    ensures
        lends(decs_code(p), p),
{
    assert forall|s: Machine, j: int|
        0 <= j && s.slot(p - 1) == 0 && s.slot(p + j) == 1 && (forall|c: int|
            s.ptr + p <= c < s.ptr + p + j ==> #[trigger] (s.tape)(c) == 0) implies #[trigger] runs(
        decs_code(p),
        s,
        borrowed(s.moved(p), j).moved(-p),
    ) by {
        let entered = s.moved(p);
        lemma_runs_move(p, s);
        assert forall|c: int| entered.ptr <= c < entered.ptr + j implies #[trigger] (
        entered.tape)(c) == 0 by {
            assert((s.tape)(c) == 0);
        }
        lemma_borrow_chain(entered, j);
        let chained = borrowed(entered, j);
        lemma_runs_move(-p, chained);
        lemma_runs_concat(move_code(p), borrow_code(), s, entered, chained);
        lemma_runs_concat(
            move_code(p) + borrow_code(),
            move_code(-p),
            s,
            chained,
            chained.moved(-p),
        );
    }
}

/// Whether `code`, started with 0 in the slot before slot `p` and the bits
/// of a number that is not 0 from slot `p` on, always subtracts one from the
/// number and leaves the pointer where it was.
pub open spec fn borrows(code: Seq<BfCmd>, p: int) -> bool {
    forall|s: Machine, y: u32|
        y != 0 && s.slot(p - 1) == 0 && (forall|c: int|
            s.ptr + p <= c < s.ptr + p + 32 ==> #[trigger] (s.tape)(c) == bit_of(
                y,
                (c - s.ptr - p) as u32,
            )) ==> #[trigger] runs(code, s, decremented(s.moved(p - 1), y).moved(1 - p))
}

/// The borrow chain borrows.
pub proof fn lemma_decs_borrows(p: int)
    ensures
        borrows(decs_code(p), p),
{
    assert forall|s: Machine, y: u32|
        y != 0 && s.slot(p - 1) == 0 && (forall|c: int|
            s.ptr + p <= c < s.ptr + p + 32 ==> #[trigger] (s.tape)(c) == bit_of(
                y,
                (c - s.ptr - p) as u32,
            )) implies #[trigger] runs(
        decs_code(p),
        s,
        decremented(s.moved(p - 1), y).moved(1 - p),
    ) by {
        lemma_decs_decrements(p, s, y);
    }
}

} // verus!
