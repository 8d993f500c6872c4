//! What the division idiom does when it runs on the tape machine.
use crate::command::BfCmd;
use crate::generator::print::divmod_code;
use crate::machine::{
    after_plain, lemma_loop_skip, lemma_loop_turn, lemma_runs_balanced, lemma_runs_concat,
    lemma_runs_plain, runs, Machine,
};
use vstd::prelude::*;

verus! {

/// The loop `[>+>>]` of the division idiom: if the divisor's cell is not
/// zero, count the remainder up and stop two cells further, on a cell that
/// holds 0.
pub open spec fn divmod_count() -> Seq<BfCmd> {
    seq![BfCmd::Open] + seq![BfCmd::Right, BfCmd::Inc, BfCmd::Right, BfCmd::Right]
        + seq![BfCmd::Close]
}

/// The loop `[-<+>]` of the division idiom: move the cell under the pointer
/// into its left neighbour.
pub open spec fn divmod_refill() -> Seq<BfCmd> {
    seq![BfCmd::Open] + seq![BfCmd::Dec, BfCmd::Left, BfCmd::Inc, BfCmd::Right]
        + seq![BfCmd::Close]
}

/// What the second loop of the division idiom holds: `+[-<+>]>+>>`.
pub open spec fn divmod_full_body() -> Seq<BfCmd> {
    seq![BfCmd::Inc] + divmod_refill() + seq![BfCmd::Right, BfCmd::Inc, BfCmd::Right, BfCmd::Right]
}

/// The loop `[+[-<+>]>+>>]` of the division idiom: when the remainder has
/// reached the divisor, put the divisor back, count the quotient up, and
/// stop on a cell that holds 0.
pub open spec fn divmod_full() -> Seq<BfCmd> {
    seq![BfCmd::Open] + divmod_full_body() + seq![BfCmd::Close]
}

/// One turn of the division idiom: `->-[>+>>]>[+[-<+>]>+>>]<<<<<`.
pub open spec fn divmod_body() -> Seq<BfCmd> {
    seq![BfCmd::Dec, BfCmd::Right, BfCmd::Dec] + divmod_count() + seq![BfCmd::Right]
        + divmod_full() + seq![BfCmd::Left, BfCmd::Left, BfCmd::Left, BfCmd::Left, BfCmd::Left]
}

/// The tape during a division by 10: `n` still to divide in the cell under
/// the pointer, then what is left of the divisor, the remainder `r` so far,
/// and the quotient `q` so far.
pub open spec fn dividing(s: Machine, n: int, r: int, q: int) -> Machine {
    Machine {
        tape: |c: int|
            if c == s.ptr {
                n as u8
            } else if c == s.ptr + 1 {
                (10 - r) as u8
            } else if c == s.ptr + 2 {
                r as u8
            } else if c == s.ptr + 3 {
                q as u8
            } else {
                s.at(c)
            },
        ..s
    }
}

/// The division idiom is the loop around one turn.
pub proof fn lemma_divmod_shape()
    ensures
        divmod_code() == seq![BfCmd::Open] + divmod_body() + seq![BfCmd::Close],
{
    assert(divmod_code() =~= seq![BfCmd::Open] + divmod_body() + seq![BfCmd::Close]);
}

/// The loop `[-<+>]` moves `k` from the cell under the pointer into its
/// left neighbour.
proof fn lemma_divmod_refill(s: Machine, k: int)
    requires
        0 <= k,
        s.cell() == k,
        s.slot(-1) + k <= 255,
    ensures
        runs(
            divmod_refill(),
            s,
            s.with_cell(s.ptr - 1, (s.slot(-1) + k) as u8).with_cell(s.ptr, 0),
        ),
    decreases k,
{
    let body = seq![BfCmd::Dec, BfCmd::Left, BfCmd::Inc, BfCmd::Right];
    let goal = s.with_cell(s.ptr - 1, (s.slot(-1) + k) as u8).with_cell(s.ptr, 0);
    reveal_with_fuel(after_plain, 5);
    lemma_runs_plain(body, s);
    let next = after_plain(body, s);
    lemma_runs_balanced(body, s, next);
    if k == 0 {
        lemma_loop_skip(body, s);
        assert(goal.tape =~= s.tape);
        assert(goal =~= s);
    } else {
        let moved = s.with_cell(s.ptr, (k - 1) as u8).with_cell(s.ptr - 1, (s.slot(-1) + 1) as u8);
        assert(next.tape =~= moved.tape);
        assert(next =~= moved);
        lemma_divmod_refill(moved, k - 1);
        let end = moved.with_cell(moved.ptr - 1, (moved.slot(-1) + (k - 1)) as u8).with_cell(
            moved.ptr,
            0,
        );
        assert(end.tape =~= goal.tape);
        assert(end =~= goal);
        lemma_loop_turn(body, s, moved, goal);
    }
}

/// One turn of the division: one less to divide, and the remainder counted
/// up, or, when it reaches 10, put back to 0 and the quotient counted up.
#[verifier::rlimit(50)]
proof fn lemma_divmod_turn(s: Machine, n: int, r: int, q: int)
    requires
        1 <= n <= 255,
        0 <= r <= 9,
        0 <= q <= 255,
        r == 9 ==> q < 255,
        s.slot(4) == 0,
        s.slot(5) == 0,
    ensures
        runs(
            divmod_body(),
            dividing(s, n, r, q),
            if r == 9 {
                dividing(s, n - 1, 0, q + 1)
            } else {
                dividing(s, n - 1, r + 1, q)
            },
        ),
{
    let start = dividing(s, n, r, q);
    let front = seq![BfCmd::Dec, BfCmd::Right, BfCmd::Dec];
    let count_body = seq![BfCmd::Right, BfCmd::Inc, BfCmd::Right, BfCmd::Right];
    let back = seq![BfCmd::Left, BfCmd::Left, BfCmd::Left, BfCmd::Left, BfCmd::Left];
    let p = s.ptr;
    reveal_with_fuel(after_plain, 6);
    // `->-`: one less to divide, one less of the divisor left
    lemma_runs_plain(front, start);
    let lowered = Machine { ptr: p + 1, ..dividing(s, n - 1, r + 1, q).with_cell(p + 2, r as u8) };
    assert(after_plain(front, start).tape =~= lowered.tape);
    assert(after_plain(front, start) =~= lowered);
    // `[>+>>]`: the remainder counted up unless the divisor is used up
    lemma_runs_plain(count_body, lowered);
    let counted = Machine { ptr: p + 4, ..dividing(s, n - 1, r + 1, q) };
    lemma_runs_balanced(count_body, lowered, after_plain(count_body, lowered));
    let first = if r == 9 {
        lowered
    } else {
        counted
    };
    if r == 9 {
        lemma_loop_skip(count_body, lowered);
    } else {
        assert(after_plain(count_body, lowered).tape =~= counted.tape);
        assert(after_plain(count_body, lowered) =~= counted);
        lemma_loop_skip(count_body, counted);
        lemma_loop_turn(count_body, lowered, counted, counted);
    }
    // `>`
    lemma_runs_plain(seq![BfCmd::Right], first);
    let stepped = first.moved(1);
    assert(after_plain(seq![BfCmd::Right], first) =~= stepped);
    // `[+[-<+>]>+>>]`: the divisor put back and the quotient counted up
    let full_end = Machine { ptr: p + 5, ..dividing(s, n - 1, 0, q + 1) };
    let second = if r == 9 {
        full_end
    } else {
        stepped
    };
    // the second loop has matching brackets whether or not it runs
    let probe = Machine { ptr: p + 2, ..dividing(s, 0, 10, 0).with_cell(p + 2, 9) };
    lemma_divmod_full_body(probe, s, 0, 0);
    lemma_runs_balanced(
        divmod_full_body(),
        probe,
        Machine { ptr: p + 5, ..dividing(s, 0, 0, 1) },
    );
    if r == 9 {
        lemma_divmod_full_body(stepped, s, n - 1, q);
        lemma_loop_skip(divmod_full_body(), full_end);
        lemma_loop_turn(divmod_full_body(), stepped, full_end, full_end);
    } else {
        lemma_loop_skip(divmod_full_body(), stepped);
    }
    // `<<<<<`
    lemma_runs_plain(back, second);
    let end = second.moved(-5);
    assert(after_plain(back, second) =~= end);
    lemma_runs_concat(front, divmod_count(), start, lowered, first);
    lemma_runs_concat(front + divmod_count(), seq![BfCmd::Right], start, first, stepped);
    lemma_runs_concat(
        front + divmod_count() + seq![BfCmd::Right],
        divmod_full(),
        start,
        stepped,
        second,
    );
    lemma_runs_concat(
        front + divmod_count() + seq![BfCmd::Right] + divmod_full(),
        back,
        start,
        second,
        end,
    );
    let goal = if r == 9 {
        dividing(s, n - 1, 0, q + 1)
    } else {
        dividing(s, n - 1, r + 1, q)
    };
    assert(end.tape =~= goal.tape);
    assert(end =~= goal);
}

/// What the second loop of the division holds, run with the pointer on a
/// remainder that has reached 9 while nothing of the divisor is left: the
/// divisor is put back to 10, the remainder to 0, the quotient is counted
/// up, and the pointer stops five cells behind the dividend.
proof fn lemma_divmod_full_body(at: Machine, s: Machine, n: int, q: int)
    requires
        0 <= n <= 255,
        0 <= q < 255,
        s.slot(4) == 0,
        s.slot(5) == 0,
        at == (Machine { ptr: s.ptr + 2, ..dividing(s, n, 10, q).with_cell(s.ptr + 2, 9) }),
    ensures
        runs(divmod_full_body(), at, Machine { ptr: s.ptr + 5, ..dividing(s, n, 0, q + 1) }),
{
    let p = s.ptr;
    let tail = seq![BfCmd::Right, BfCmd::Inc, BfCmd::Right, BfCmd::Right];
    reveal_with_fuel(after_plain, 5);
    lemma_runs_plain(seq![BfCmd::Inc], at);
    let raised = at.with_cell(p + 2, 10);
    assert(after_plain(seq![BfCmd::Inc], at).tape =~= raised.tape);
    assert(after_plain(seq![BfCmd::Inc], at) =~= raised);
    lemma_divmod_refill(raised, 10);
    let refilled = raised.with_cell(p + 1, 10).with_cell(p + 2, 0);
    assert(raised.with_cell(raised.ptr - 1, (raised.slot(-1) + 10) as u8).with_cell(raised.ptr, 0)
        =~= refilled);
    lemma_runs_plain(tail, refilled);
    let end = Machine { ptr: p + 5, ..dividing(s, n, 0, q + 1) };
    assert(after_plain(tail, refilled).tape =~= end.tape);
    assert(after_plain(tail, refilled) =~= end);
    lemma_runs_concat(seq![BfCmd::Inc], divmod_refill(), at, raised, refilled);
    lemma_runs_concat(seq![BfCmd::Inc] + divmod_refill(), tail, at, refilled, end);
}

/// The division loop, started with `n` to divide, the remainder `r` and the
/// quotient `q`.
proof fn lemma_divmod_loop(s: Machine, n: int, r: int, q: int)
    requires
        0 <= n <= 255,
        0 <= r <= 9,
        0 <= q,
        q + (r + n) / 10 <= 255,
        s.slot(4) == 0,
        s.slot(5) == 0,
    ensures
        runs(
            seq![BfCmd::Open] + divmod_body() + seq![BfCmd::Close],
            dividing(s, n, r, q),
            dividing(s, 0, (r + n) % 10, q + (r + n) / 10),
        ),
    decreases n,
{
    let start = dividing(s, n, r, q);
    if n == 0 {
        lemma_divmod_turn(s, 1, 0, 0);
        lemma_runs_balanced(divmod_body(), dividing(s, 1, 0, 0), dividing(s, 0, 1, 0));
        lemma_loop_skip(divmod_body(), start);
    } else {
        let (r1, q1) = if r == 9 {
            (0int, q + 1)
        } else {
            (r + 1, q)
        };
        lemma_divmod_turn(s, n, r, q);
        lemma_divmod_loop(s, n - 1, r1, q1);
        lemma_loop_turn(
            divmod_body(),
            start,
            dividing(s, n - 1, r1, q1),
            dividing(s, 0, (r + n) % 10, q + (r + n) / 10),
        );
    }
}

/// The division idiom is correct: started on a cell that holds `n`, with 10
/// in the next cell, 0 in the one behind it, `q` in the one behind that and
/// 0 in the two after, it leaves 0 in the first cell, the remainder of `n`
/// by 10 in the third, and the quotient added to the fourth.
pub proof fn lemma_divmod_divides(s: Machine, q: int)
    requires
        s.slot(1) == 10,
        s.slot(2) == 0,
        s.slot(3) == q,
        s.slot(4) == 0,
        s.slot(5) == 0,
        q + s.cell() / 10 <= 255,
    ensures
        runs(divmod_code(), s, dividing(s, 0, s.cell() as int % 10, q + s.cell() / 10)),
{
    let n = s.cell() as int;
    lemma_divmod_shape();
    lemma_divmod_loop(s, n, 0, q);
    assert(dividing(s, n, 0, q).tape =~= s.tape);
    assert(dividing(s, n, 0, q) =~= s);
}

} // verus!
