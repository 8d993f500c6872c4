//! What the shift routine does when its code runs on the tape machine.
use crate::command::BfCmd;
use crate::effect::arith::{binary_result, holds, lemma_bits};
use crate::effect::{
    lemma_loop_code_skip, lemma_loop_code_turn, lemma_runs_add, lemma_runs_move, lemma_runs_set,
    lemma_while_from_loop, lemma_while_once, lemma_while_skip, loop_code,
};
use crate::generator::arith::{
    bit_of, seq_down, seq_up, shl_carry_step, shl_code, shl_drop_code, shl_fold_step,
    shl_high_code, shl_once_code, shl_weigh_step,
};
use crate::generator::control::{set_code, while_code};
use crate::generator::{add_code, move_code};
use crate::machine::{lemma_runs_balanced, lemma_runs_concat, lemma_runs_empty, runs, Machine};
use vstd::arithmetic::power2::{lemma2_to64, pow2};
use vstd::prelude::*;

verus! {

/// A value shifted left by an amount: 0 if the amount is 32 or more.
pub open spec fn shifted_left(x: u32, n: u32) -> u32 {
    if n >= 32 {
        0
    } else {
        x << n
    }
}

/// Whether bit 5 of the amount `n`, or one of its bits from bit `i` up, is
/// set.
pub open spec fn shl_high_set(n: u32, i: int) -> bool {
    bit_of(n, 5) == 1 || ((n as u64) >> (i as u64)) != 0
}

/// The tape while the high bits of the amount `n` are gathered, when the
/// bits from 31 down to `i` are done: their cells hold 0, and the cell of
/// bit 5 holds 1 if one of them, or bit 5, is set. The pointer is on the
/// head of the left operand.
pub open spec fn shl_folded(s: Machine, n: u32, i: int) -> Machine {
    Machine {
        tape: |c: int|
            if c == s.ptr + 39 {
                if shl_high_set(n, i) {
                    1u8
                } else {
                    0u8
                }
            } else if s.ptr + 34 + i <= c <= s.ptr + 65 {
                0u8
            } else {
                s.at(c)
            },
        ..s
    }
}

/// The tape while a value is cleared, when its bits below bit `i` are done.
pub open spec fn shl_dropping(s: Machine, i: int) -> Machine {
    Machine {
        tape: |c: int|
            if s.ptr < c <= s.ptr + i {
                0u8
            } else {
                s.at(c)
            },
        ..s
    }
}

/// The tape after the high bits of the amount `n` have been handled: the
/// cells of the bits 5 to 31 of the amount hold 0, and if `n` is 32 or more,
/// so do the cells of the bits of the value.
pub open spec fn shl_dropped(s: Machine, n: u32) -> Machine {
    Machine {
        tape: |c: int|
            if s.ptr + 39 <= c <= s.ptr + 65 {
                0u8
            } else if n >= 32 && s.ptr < c <= s.ptr + 32 {
                0u8
            } else {
                s.at(c)
            },
        ..s
    }
}

/// The bits of the amount that have been gathered into the cell of its bit
/// 0 when the bits from 4 down to `i` are done.
pub open spec fn shl_gathered(i: int) -> u32 {
    if i >= 5 {
        1
    } else if i == 4 {
        17
    } else if i == 3 {
        25
    } else if i == 2 {
        29
    } else {
        31
    }
}

/// The tape while the low bits of the amount `n` are gathered, when the bits
/// from 4 down to `i` are done: the cell of bit 0 holds the bits gathered so
/// far, and the cells of the bits that are done hold 0.
pub open spec fn shl_weighed(s: Machine, n: u32, i: int) -> Machine {
    Machine {
        tape: |c: int|
            if c == s.ptr + 34 {
                (n & shl_gathered(i)) as u8
            } else if s.ptr + 34 + i <= c <= s.ptr + 65 {
                0u8
            } else {
                s.at(c)
            },
        ..s
    }
}

/// The tape while the value is shifted: the value `y` in the cells of the
/// left operand, and the number `m` of places still to go in the cell of bit
/// 0 of the amount.
pub open spec fn shl_shifting(s: Machine, y: u32, m: int) -> Machine {
    Machine {
        tape: |c: int|
            if s.ptr < c <= s.ptr + 32 {
                bit_of(y, (c - s.ptr - 1) as u32) as u8
            } else if c == s.ptr + 34 {
                m as u8
            } else {
                s.at(c)
            },
        ..s
    }
}

/// The tape during a shift by one place, when the bits from 30 down to `i`
/// have moved up: each cell above that of bit `i` holds the bit one place
/// lower, and the cell of bit `i` holds 0.
pub open spec fn shl_carried(s: Machine, y: u32, i: int) -> Machine {
    Machine {
        tape: |c: int|
            if s.ptr + 2 + i <= c <= s.ptr + 32 {
                bit_of(y, (c - s.ptr - 2) as u32) as u8
            } else if c == s.ptr + 1 + i {
                0u8
            } else {
                s.at(c)
            },
        ..s
    }
}

/// What the bits of a value shifted by one place are, and that shifting
/// place by place adds up.
proof fn lemma_shift_bits(y: u32)
    ensures
        bit_of(y << 1u32, 0) == 0,
        forall|k: u32| k < 31 ==> #[trigger] bit_of(y << 1u32, (k + 1) as u32) == bit_of(y, k),
        forall|m: u32| 1 <= m < 32 ==> (y << 1u32) << ((m - 1) as u32) == #[trigger] (y << m),
        y << 0u32 == y,
{
    assert(((y << 1u32) >> 0u32) & 1 == 0) by (bit_vector);
    assert forall|k: u32| k < 31 implies #[trigger] bit_of(y << 1u32, (k + 1) as u32) == bit_of(
        y,
        k,
    ) by {
        assert(((y << 1u32) >> ((k + 1) as u32)) & 1 == (y >> k) & 1) by (bit_vector)
            requires
                k < 31,
        ;
    }
    assert forall|m: u32| 1 <= m < 32 implies (y << 1u32) << ((m - 1) as u32) == #[trigger] (y
        << m) by {
        assert((y << 1u32) << ((m - 1) as u32) == y << m) by (bit_vector)
            requires
                1 <= m < 32,
        ;
    }
    assert(y << 0u32 == y) by (bit_vector);
}

/// How the gathered bits grow when bit `i` of the amount is added.
proof fn lemma_gather_bits(n: u32, i: int)
    requires
        1 <= i <= 4,
    ensures
        bit_of(n, i as u32) == 0 ==> n & shl_gathered(i) == n & shl_gathered(i + 1),
        bit_of(n, i as u32) == 1 ==> n & shl_gathered(i) == (n & shl_gathered(i + 1)) + pow2(
            i as nat,
        ),
        n & shl_gathered(i) <= 31,
        bit_of(n, i as u32) <= 1,
{
    lemma2_to64();
    let k = i as u32;
    // the bits gathered so far, and with bit `i`, as masks
    let before: u32 = ((31u32 >> ((k + 1) as u32)) << ((k + 1) as u32)) | 1;
    let after: u32 = ((31u32 >> k) << k) | 1;
    let weight: u32 = 1u32 << k;
    assert(before == shl_gathered(i + 1) && after == shl_gathered(i) && weight == pow2(i as nat))
        by {
        assert((k == 1 ==> before == 29 && after == 31 && weight == 2) && (k == 2 ==> before == 25
            && after == 29 && weight == 4) && (k == 3 ==> before == 17 && after == 25 && weight
            == 8) && (k == 4 ==> before == 1 && after == 17 && weight == 16)) by (bit_vector)
            requires
                before == ((31u32 >> ((k + 1) as u32)) << ((k + 1) as u32)) | 1,
                after == ((31u32 >> k) << k) | 1,
                weight == 1u32 << k,
        ;
    }
    assert(((n >> k) & 1 == 0 ==> n & after == n & before) && ((n >> k) & 1 == 1 ==> n & after
        == (n & before) + weight) && n & after <= 31 && (n >> k) & 1 <= 1) by (bit_vector)
        requires
            1 <= k <= 4,
            before == ((31u32 >> ((k + 1) as u32)) << ((k + 1) as u32)) | 1,
            after == ((31u32 >> k) << k) | 1,
            weight == 1u32 << k,
    ;
}

/// How the high bits of an amount add up: a set bit makes the amount 32 or
/// more, a clear bit changes nothing, and there is no bit above bit 31.
proof fn lemma_high_bits_fold(n: u32, i: int)
    requires
        6 <= i <= 31,
    ensures
        bit_of(n, i as u32) == 1 ==> shl_high_set(n, i),
        bit_of(n, i as u32) != 1 ==> shl_high_set(n, i) == shl_high_set(n, i + 1),
        shl_high_set(n, 32) == (bit_of(n, 5) == 1),
        shl_high_set(n, 6) == (n >= 32),
        bit_of(n, i as u32) <= 1,
{
    let k = i as u32;
    assert(((n >> k) & 1 == 1 ==> ((n as u64) >> (k as u64)) != 0) && ((n >> k) & 1 != 1 ==> (((
    n as u64) >> (k as u64)) != 0) == (((n as u64) >> ((k + 1) as u64)) != 0)) && (n >> k) & 1
        <= 1) by (bit_vector)
        requires
            6 <= k <= 31,
    ;
    assert(((n as u64) >> 32u64) == 0 && (((n >> 5u32) & 1 == 1 || ((n as u64) >> 6u64) != 0)
        == (n >= 32))) by (bit_vector);
}

/// Gathering the bits of the amount from 31 down to `i` into bit 5.
proof fn lemma_shl_fold(s: Machine, n: u32, i: int)
    requires
        6 <= i <= 32,
        forall|c: int|
            s.ptr + 34 <= c <= s.ptr + 65 ==> #[trigger] (s.tape)(c) == bit_of(
                n,
                (c - s.ptr - 34) as u32,
            ),
    ensures
        runs(seq_down(i, 32, |i: int| shl_fold_step(i)), s, shl_folded(s, n, i)),
    decreases 32 - i,
{
    let after = shl_folded(s, n, i);
    lemma_bits(n);
    lemma_high_bits_fold(n, 6);
    if i == 32 {
        lemma_runs_empty(s);
        assert((s.tape)(s.ptr + 39) == bit_of(n, ((s.ptr + 39) - s.ptr - 34) as u32));
        assert(after.tape =~= s.tape);
        assert(after =~= s);
    } else {
        lemma_shl_fold(s, n, i + 1);
        lemma_high_bits_fold(n, i);
        let before = shl_folded(s, n, i + 1);
        let body = add_code(34 + i, -1) + set_code(39, 1);
        let lowered = before.added(34 + i, -1);
        let turned = lowered.with_cell(lowered.ptr + 39, 1);
        lemma_runs_add(34 + i, -1, before);
        lemma_runs_set(39, 1, lowered);
        lemma_runs_concat(add_code(34 + i, -1), set_code(39, 1), before, lowered, turned);
        assert(before.slot(34 + i) == bit_of(n, i as u32)) by {
            assert((s.tape)(s.ptr + 34 + i) == bit_of(n, ((s.ptr + 34 + i) - s.ptr - 34) as u32));
        }
        let end = if bit_of(n, i as u32) == 1 {
            turned
        } else {
            before
        };
        if bit_of(n, i as u32) == 1 {
            lemma_while_once(34 + i, body, before, turned);
        } else {
            lemma_runs_balanced(body, before, turned);
            lemma_while_skip(34 + i, body, before);
        }
        lemma_runs_concat(
            seq_down(i + 1, 32, |i: int| shl_fold_step(i)),
            shl_fold_step(i),
            s,
            before,
            end,
        );
        assert(end.tape =~= after.tape);
        assert(end =~= after);
    }
}

/// Clearing the bits of the value from bit 0 up to bit `i - 1`.
proof fn lemma_shl_drop(s: Machine, i: int)
    requires
        0 <= i <= 32,
    ensures
        runs(seq_up(0, i, |i: int| set_code(1 + i, 0)), s, shl_dropping(s, i)),
    decreases i,
{
    let after = shl_dropping(s, i);
    if i == 0 {
        lemma_runs_empty(s);
        assert(after.tape =~= s.tape);
        assert(after =~= s);
    } else {
        let k = i - 1;
        lemma_shl_drop(s, k);
        let before = shl_dropping(s, k);
        lemma_runs_set(1 + k, 0, before);
        let end = before.with_cell(before.ptr + (1 + k), 0);
        lemma_runs_concat(
            seq_up(0, k, |i: int| set_code(1 + i, 0)),
            set_code(1 + k, 0),
            s,
            before,
            end,
        );
        assert(end.tape =~= after.tape);
        assert(end =~= after);
    }
}

/// The high bits of the amount are handled as [`shl_dropped`] says.
proof fn lemma_shl_high(s: Machine, n: u32)
    requires
        forall|c: int|
            s.ptr + 34 <= c <= s.ptr + 65 ==> #[trigger] (s.tape)(c) == bit_of(
                n,
                (c - s.ptr - 34) as u32,
            ),
    ensures
        runs(shl_high_code(), s, shl_dropped(s, n)),
{
    lemma_shl_fold(s, n, 6);
    lemma_high_bits_fold(n, 6);
    lemma_bits(n);
    let folded = shl_folded(s, n, 6);
    let lowered = folded.added(39, -1);
    lemma_runs_add(39, -1, folded);
    lemma_shl_drop(lowered, 32);
    let cleared = shl_dropping(lowered, 32);
    lemma_runs_concat(
        add_code(39, -1),
        seq_up(0, 32, |i: int| set_code(1 + i, 0)),
        folded,
        lowered,
        cleared,
    );
    let end = if n >= 32 {
        cleared
    } else {
        folded
    };
    if n >= 32 {
        lemma_while_once(39, shl_drop_code(), folded, cleared);
    } else {
        lemma_runs_balanced(shl_drop_code(), folded, cleared);
        lemma_while_skip(39, shl_drop_code(), folded);
    }
    lemma_runs_concat(
        seq_down(6, 32, |i: int| shl_fold_step(i)),
        while_code(39, shl_drop_code()),
        s,
        folded,
        end,
    );
    let goal = shl_dropped(s, n);
    assert forall|c: int| #[trigger] (end.tape)(c) == (goal.tape)(c) by {
        if c == s.ptr + 39 && n < 32 {
            assert((s.tape)(c) == bit_of(n, (c - s.ptr - 34) as u32));
        }
    }
    assert(end.tape =~= goal.tape);
    assert(end =~= goal);
}

/// Gathering the bits of the amount from 4 down to `i`.
proof fn lemma_shl_weigh(s: Machine, n: u32, i: int)
    requires
        1 <= i <= 5,
        forall|c: int| s.ptr + 34 <= c <= s.ptr + 38 ==> #[trigger] (s.tape)(c) == bit_of(
            n,
            (c - s.ptr - 34) as u32,
        ),
        forall|c: int| s.ptr + 39 <= c <= s.ptr + 65 ==> #[trigger] (s.tape)(c) == 0,
    ensures
        runs(seq_down(i, 5, |i: int| shl_weigh_step(i)), s, shl_weighed(s, n, i)),
    decreases 5 - i,
{
    let after = shl_weighed(s, n, i);
    if i == 5 {
        lemma_runs_empty(s);
        assert(n & 1 == bit_of(n, 0)) by (bit_vector);
        assert(bit_of(n, 0) <= 1) by {
            lemma_bits(n);
        }
        assert((s.tape)(s.ptr + 34) == bit_of(n, ((s.ptr + 34) - s.ptr - 34) as u32));
        assert(after.tape =~= s.tape);
        assert(after =~= s);
    } else {
        lemma_shl_weigh(s, n, i + 1);
        lemma_gather_bits(n, i);
        let before = shl_weighed(s, n, i + 1);
        let body = add_code(34 + i, -1) + add_code(34, pow2(i as nat) as int);
        lemma_runs_add(34 + i, -1, before);
        lemma_runs_add(34, pow2(i as nat) as int, before.added(34 + i, -1));
        let turned = before.added(34 + i, -1).added(34, pow2(i as nat) as int);
        lemma_runs_concat(
            add_code(34 + i, -1),
            add_code(34, pow2(i as nat) as int),
            before,
            before.added(34 + i, -1),
            turned,
        );
        assert(before.slot(34 + i) == bit_of(n, i as u32)) by {
            assert((s.tape)(s.ptr + 34 + i) == bit_of(n, ((s.ptr + 34 + i) - s.ptr - 34) as u32));
        }
        let end = if bit_of(n, i as u32) == 0 {
            before
        } else {
            turned
        };
        if bit_of(n, i as u32) == 0 {
            lemma_runs_balanced(body, before, turned);
            lemma_while_skip(34 + i, body, before);
        } else {
            lemma_while_once(34 + i, body, before, turned);
        }
        lemma_runs_concat(
            seq_down(i + 1, 5, |i: int| shl_weigh_step(i)),
            shl_weigh_step(i),
            s,
            before,
            end,
        );
        assert(end.tape =~= after.tape);
        assert(end =~= after);
    }
}

/// Moving the bits from 30 down to `i` one place up, after the cell of bit
/// 31 has been cleared.
proof fn lemma_shl_carry(s: Machine, y: u32, i: int)
    requires
        0 <= i <= 31,
        forall|c: int| s.ptr < c <= s.ptr + 31 ==> #[trigger] (s.tape)(c) == bit_of(
            y,
            (c - s.ptr - 1) as u32,
        ),
        s.slot(32) == 0,
    ensures
        runs(seq_down(i, 31, |i: int| shl_carry_step(i)), s, shl_carried(s, y, i)),
    decreases 31 - i,
{
    let after = shl_carried(s, y, i);
    lemma_bits(y);
    if i == 31 {
        lemma_runs_empty(s);
        assert(after.tape =~= s.tape);
        assert(after =~= s);
    } else {
        lemma_shl_carry(s, y, i + 1);
        let before = shl_carried(s, y, i + 1);
        let body = add_code(1 + i, -1) + add_code(2 + i, 1);
        lemma_runs_add(1 + i, -1, before);
        lemma_runs_add(2 + i, 1, before.added(1 + i, -1));
        let turned = before.added(1 + i, -1).added(2 + i, 1);
        lemma_runs_concat(
            add_code(1 + i, -1),
            add_code(2 + i, 1),
            before,
            before.added(1 + i, -1),
            turned,
        );
        assert(before.slot(1 + i) == bit_of(y, i as u32)) by {
            assert((s.tape)(s.ptr + 1 + i) == bit_of(y, ((s.ptr + 1 + i) - s.ptr - 1) as u32));
        }
        let end = if bit_of(y, i as u32) == 0 {
            before
        } else {
            turned
        };
        if bit_of(y, i as u32) == 0 {
            lemma_runs_balanced(body, before, turned);
            lemma_while_skip(1 + i, body, before);
        } else {
            lemma_while_once(1 + i, body, before, turned);
        }
        lemma_runs_concat(
            seq_down(i + 1, 31, |i: int| shl_carry_step(i)),
            shl_carry_step(i),
            s,
            before,
            end,
        );
        assert(end.tape =~= after.tape);
        assert(end =~= after);
    }
}

/// One turn of the shift loop: one place less to go, and the value shifted
/// by one place.
proof fn lemma_shl_once(s: Machine, y: u32, m: int)
    requires
        1 <= m <= 31,
    ensures
        runs(shl_once_code(), shl_shifting(s, y, m), shl_shifting(s, y << 1u32, m - 1)),
{
    let start = shl_shifting(s, y, m);
    let counted = start.added(34, -1);
    let topless = counted.with_cell(counted.ptr + 32, 0);
    lemma_bits(y);
    lemma_shift_bits(y);
    lemma_bits(y << 1u32);
    lemma_runs_add(34, -1, start);
    lemma_runs_set(32, 0, counted);
    lemma_runs_concat(add_code(34, -1), set_code(32, 0), start, counted, topless);
    lemma_shl_carry(topless, y, 0);
    let end = shl_carried(topless, y, 0);
    lemma_runs_concat(
        add_code(34, -1) + set_code(32, 0),
        seq_down(0, 31, |i: int| shl_carry_step(i)),
        start,
        topless,
        end,
    );
    let goal = shl_shifting(s, y << 1u32, m - 1);
    assert forall|c: int| #[trigger] (end.tape)(c) == (goal.tape)(c) by {
        if s.ptr + 1 < c <= s.ptr + 32 {
            let k = (c - s.ptr - 2) as u32;
            assert(bit_of(y << 1u32, (k + 1) as u32) == bit_of(y, k));
        }
    }
    assert(end.tape =~= goal.tape);
    assert(end =~= goal);
}

/// The shift loop, met with the pointer on its counter: it shifts the value
/// by as many places as the counter holds.
proof fn lemma_shl_loop(s: Machine, y: u32, m: int)
    requires
        0 <= m <= 31,
    ensures
        runs(
            loop_code(34, shl_once_code()),
            shl_shifting(s, y, m).moved(34),
            shl_shifting(s, y << (m as u32), 0).moved(34),
        ),
    decreases m,
{
    let start = shl_shifting(s, y, m);
    lemma_shift_bits(y);
    if m == 0 {
        lemma_shl_once(s, y, 1);
        lemma_runs_balanced(shl_once_code(), shl_shifting(s, y, 1), shl_shifting(s, y << 1u32, 0));
        lemma_loop_code_skip(34, shl_once_code(), start);
    } else {
        lemma_shl_once(s, y, m);
        lemma_shl_loop(s, y << 1u32, m - 1);
        assert((y << 1u32) << ((m - 1) as u32) == y << (m as u32));
        lemma_loop_code_turn(
            34,
            shl_once_code(),
            start,
            shl_shifting(s, y << 1u32, m - 1),
            shl_shifting(s, y << (m as u32), 0).moved(34),
        );
    }
}

/// The shift routine is correct: started behind a value `x` and an amount
/// `n`, it leaves `x` shifted left by `n` places where `x` was, which is 0
/// if `n` is 32 or more, 0 in every cell of the amount, and the pointer on
/// the former head of the amount.
#[verifier::rlimit(50)]
pub proof fn lemma_shl_shifts(s: Machine, x: u32, n: u32)
    requires
        holds(s, s.ptr - 66, x),
        holds(s, s.ptr - 33, n),
    ensures
        runs(shl_code(), s, binary_result(s, shifted_left(x, n))),
{
    let start = s.moved(-66);
    let head = start.ptr;
    let y: u32 = if n >= 32 {
        0
    } else {
        x
    };
    let m = n & 31;
    assert(m <= 31 && (n < 32 ==> m == n)) by (bit_vector)
        requires
            m == n & 31,
    ;
    assert(0u32 << m == 0) by (bit_vector);
    assert(y << m == shifted_left(x, n));
    lemma_bits(x);
    lemma_bits(y);
    lemma_bits(n);
    lemma_runs_move(-66, s);
    assert forall|c: int| start.ptr + 34 <= c <= start.ptr + 65 implies #[trigger] (start.tape)(c)
        == bit_of(n, (c - start.ptr - 34) as u32) by {
        assert((s.tape)(c) == bit_of(n, (c - (s.ptr - 33) - 1) as u32));
    }
    lemma_shl_high(start, n);
    let cleared = shl_dropped(start, n);
    assert forall|c: int| cleared.ptr + 34 <= c <= cleared.ptr + 38 implies #[trigger] (
    cleared.tape)(c) == bit_of(n, (c - cleared.ptr - 34) as u32) by {
        assert((s.tape)(c) == bit_of(n, (c - (s.ptr - 33) - 1) as u32));
    }
    lemma_shl_weigh(cleared, n, 1);
    let weighed = shl_weighed(cleared, n, 1);
    let shifting = shl_shifting(weighed, y, m as int);
    assert forall|c: int| #[trigger] (weighed.tape)(c) == (shifting.tape)(c) by {
        if head < c <= head + 32 {
            assert((s.tape)(c) == bit_of(x, (c - (s.ptr - 66) - 1) as u32));
            assert(bit_of(0, (c - head - 1) as u32) == 0) by {
                lemma_bits(0);
                let k = (c - head - 1) as u32;
                assert((0u32 >> k) & 1 == 0) by (bit_vector);
            }
        }
    }
    assert(weighed.tape =~= shifting.tape);
    assert(weighed =~= shifting);
    lemma_shl_loop(weighed, y, m as int);
    let shifted = shl_shifting(weighed, y << m, 0);
    lemma_while_from_loop(34, shl_once_code(), shifting, shifted);
    lemma_runs_add(33, -1, shifted);
    let popped = shifted.added(33, -1);
    lemma_runs_move(33, popped);
    let weigh = seq_down(1, 5, |i: int| shl_weigh_step(i));
    lemma_runs_concat(move_code(-66), shl_high_code(), s, start, cleared);
    lemma_runs_concat(move_code(-66) + shl_high_code(), weigh, s, cleared, weighed);
    lemma_runs_concat(
        move_code(-66) + shl_high_code() + weigh,
        while_code(34, shl_once_code()),
        s,
        weighed,
        shifted,
    );
    lemma_runs_concat(
        move_code(-66) + shl_high_code() + weigh + while_code(34, shl_once_code()),
        add_code(33, -1),
        s,
        shifted,
        popped,
    );
    lemma_runs_concat(
        move_code(-66) + shl_high_code() + weigh + while_code(34, shl_once_code()) + add_code(
            33,
            -1,
        ),
        move_code(33),
        s,
        popped,
        popped.moved(33),
    );
    let goal = binary_result(s, shifted_left(x, n));
    lemma_bits(y << m);
    assert forall|c: int| #[trigger] (popped.moved(33).tape)(c) == (goal.tape)(c) by {
        if s.ptr - 33 < c < s.ptr {
            assert((s.tape)(c) == bit_of(n, (c - (s.ptr - 33) - 1) as u32));
        }
    }
    assert(popped.moved(33).tape =~= goal.tape);
    assert(popped.moved(33) =~= goal);
}

/// Whether `code`, started behind a value `x` and an amount `n`, always
/// leaves `x` shifted left by `n` places where `x` was, which is 0 if `n` is
/// 32 or more, 0 in every cell of the amount, and the pointer on the former
/// head of the amount.
pub open spec fn shifts(code: Seq<BfCmd>) -> bool {
    forall|s: Machine, x: u32, n: u32|
        holds(s, s.ptr - 66, x) && holds(s, s.ptr - 33, n) ==> #[trigger] runs(
            code,
            s,
            binary_result(s, shifted_left(x, n)),
        )
}

/// The shift routine shifts.
pub proof fn lemma_shl_is_shift()
    ensures
        shifts(shl_code()),
{
    assert forall|s: Machine, x: u32, n: u32|
        holds(s, s.ptr - 66, x) && holds(s, s.ptr - 33, n) implies #[trigger] runs(
        shl_code(),
        s,
        binary_result(s, shifted_left(x, n)),
    ) by {
        lemma_shl_shifts(s, x, n);
    }
}

} // verus!
