//! What the pointer algebra and the control builders do when their code
//! runs on the tape machine.
use crate::command::{repeat, BfCmd};
use crate::generator::control::{
    if_arms_code, if_code, if_skipped_code, if_taken_code, set_code, while_code,
};
use crate::generator::{add_code, adjust_code, get_code, move_code, put_code};
use crate::machine::{
    balanced, lemma_balanced_back, lemma_balanced_concat, lemma_closes_concat, lemma_loop_skip,
    lemma_loop_turn, lemma_runs_balanced, lemma_runs_concat, lemma_runs_empty, lemma_runs_middle,
    lemma_runs_one, lemma_runs_one_result, lemma_runs_split, lemma_wrap_sum, runs, step, wrap,
    Machine,
};
use vstd::prelude::*;

pub mod arith;
pub mod bitwise;
pub mod decimal;
pub mod decrement;
pub mod dispatch;
pub mod divmod;
pub mod increment;
pub mod print;
pub mod program;
pub mod shift;

verus! {

/// The state after `n` copies of a command that steps, increments or
/// decrements: steps add up to a move, increments and decrements to an
/// addition.
pub open spec fn repeated(s: Machine, c: BfCmd, n: int) -> Machine {
    if n <= 0 {
        s
    } else if c == BfCmd::Right {
        s.moved(n)
    } else if c == BfCmd::Left {
        s.moved(-n)
    } else if c == BfCmd::Inc {
        s.added(0, n)
    } else if c == BfCmd::Dec {
        s.added(0, -n)
    } else {
        s
    }
}

/// One more copy of the command leads from the state after `n - 1` copies
/// to the state after `n`.
proof fn lemma_repeated_next(s: Machine, c: BfCmd, n: int)
    requires
        n >= 1,
        c == BfCmd::Right || c == BfCmd::Left || c == BfCmd::Inc || c == BfCmd::Dec,
    ensures
        step(repeated(s, c, n - 1), c) == repeated(s, c, n),
{
    let last = step(repeated(s, c, n - 1), c);
    let v = s.cell() as int;
    if c == BfCmd::Inc {
        lemma_wrap_sum(v + (n - 1), 1);
        if n == 1 {
            assert(wrap(v) == v);
        }
        assert(last.tape =~= s.added(0, n).tape);
    } else if c == BfCmd::Dec {
        lemma_wrap_sum(v - (n - 1), -1);
        if n == 1 {
            assert(wrap(v) == v);
        }
        assert(last.tape =~= s.added(0, -n).tape);
    }
    assert(last =~= repeated(s, c, n));
}

/// A run of `n` equal commands does what one of them does, `n` times over.
pub proof fn lemma_runs_repeat(c: BfCmd, n: int, s: Machine)
    requires
        c == BfCmd::Right || c == BfCmd::Left || c == BfCmd::Inc || c == BfCmd::Dec,
    ensures
        runs(repeat(c, n), s, repeated(s, c, n)),
    decreases n,
{
    if n <= 0 {
        assert(repeat(c, n) =~= Seq::<BfCmd>::empty());
        lemma_runs_empty(s);
    } else {
        lemma_runs_repeat(c, n - 1, s);
        let mid = repeated(s, c, n - 1);
        lemma_runs_one(c, mid);
        lemma_repeated_next(s, c, n);
        lemma_runs_concat(repeat(c, n - 1), seq![c], s, mid, step(mid, c));
        assert(repeat(c, n - 1) + seq![c] =~= repeat(c, n));
    }
}

/// `move_code(n)` moves the pointer by `n` and changes nothing else.
pub proof fn lemma_runs_move(n: int, s: Machine)
    ensures
        runs(move_code(n), s, s.moved(n)),
{
    lemma_runs_repeat(BfCmd::Right, n, s);
    lemma_runs_repeat(BfCmd::Left, -n, s);
    assert(s.moved(0) =~= s);
}

/// `adjust_code(x)` adds `x` to the cell under the pointer and changes
/// nothing else.
pub proof fn lemma_runs_adjust(x: int, s: Machine)
    ensures
        runs(adjust_code(x), s, s.added(0, x)),
{
    lemma_runs_repeat(BfCmd::Inc, x, s);
    lemma_runs_repeat(BfCmd::Dec, -x, s);
    assert(s.added(0, 0).tape =~= s.tape);
    assert(s.added(0, 0) =~= s);
}

/// `add_code(p, x)` adds `x` to slot `p`, and changes nothing else: the
/// pointer is back where it was.
pub proof fn lemma_runs_add(p: int, x: int, s: Machine)
    ensures
        runs(add_code(p, x), s, s.added(p, x)),
{
    let there = s.moved(p);
    let changed = there.added(0, x);
    lemma_runs_move(p, s);
    lemma_runs_adjust(x, there);
    lemma_runs_move(-p, changed);
    lemma_runs_concat(move_code(p), adjust_code(x), s, there, changed);
    lemma_runs_concat(move_code(p) + adjust_code(x), move_code(-p), s, changed, changed.moved(-p));
    assert(changed.moved(-p) =~= s.added(p, x));
}

/// `put_code(p)` writes slot `p`, and changes nothing else.
pub proof fn lemma_runs_put(p: int, s: Machine)
    ensures
        runs(put_code(p), s, Machine { output: s.output.push(s.slot(p)), ..s }),
{
    let there = s.moved(p);
    lemma_runs_move(p, s);
    lemma_runs_one(BfCmd::Put, there);
    lemma_runs_move(-p, there.written());
    lemma_runs_concat(move_code(p), seq![BfCmd::Put], s, there, there.written());
    lemma_runs_concat(
        move_code(p) + seq![BfCmd::Put],
        move_code(-p),
        s,
        there.written(),
        there.written().moved(-p),
    );
    assert(there.written().moved(-p) =~= Machine { output: s.output.push(s.slot(p)), ..s });
}

/// `get_code(p)` reads into slot `p`, and changes nothing else.
pub proof fn lemma_runs_get(p: int, s: Machine)
    ensures
        runs(get_code(p), s, s.moved(p).read().moved(-p)),
{
    let there = s.moved(p);
    lemma_runs_move(p, s);
    lemma_runs_one(BfCmd::Get, there);
    lemma_runs_move(-p, there.read());
    lemma_runs_concat(move_code(p), seq![BfCmd::Get], s, there, there.read());
    lemma_runs_concat(
        move_code(p) + seq![BfCmd::Get],
        move_code(-p),
        s,
        there.read(),
        there.read().moved(-p),
    );
}

/// The loop of `while_code(p, body)` as the machine meets it, with the
/// pointer on slot `p`: the body between the way back to the reference
/// position and the way to the slot again.
pub open spec fn loop_code(p: int, body: Seq<BfCmd>) -> Seq<BfCmd> {
    seq![BfCmd::Open] + (move_code(-p) + body + move_code(p)) + seq![BfCmd::Close]
}

/// A body that runs at the reference position runs between the two ways
/// when the pointer starts and ends on slot `p`.
pub proof fn lemma_runs_framed(p: int, body: Seq<BfCmd>, s: Machine, t: Machine)
    requires
        runs(body, s, t),
    ensures
        runs(move_code(-p) + body + move_code(p), s.moved(p), t.moved(p)),
{
    lemma_runs_move(-p, s.moved(p));
    assert(s.moved(p).moved(-p) =~= s);
    lemma_runs_move(p, t);
    lemma_runs_concat(move_code(-p), body, s.moved(p), s, t);
    lemma_runs_concat(move_code(-p) + body, move_code(p), s.moved(p), t, t.moved(p));
}

/// `while_code(p, body)` is the way to slot `p`, the loop, and the way back.
pub proof fn lemma_while_from_loop(p: int, body: Seq<BfCmd>, s: Machine, u: Machine)
    requires
        runs(loop_code(p, body), s.moved(p), u.moved(p)),
    ensures
        runs(while_code(p, body), s, u),
{
    lemma_runs_move(p, s);
    lemma_runs_move(-p, u.moved(p));
    assert(u.moved(p).moved(-p) =~= u);
    lemma_runs_concat(move_code(p), loop_code(p, body), s, s.moved(p), u.moved(p));
    lemma_runs_concat(move_code(p) + loop_code(p, body), move_code(-p), s, u.moved(p), u);
    assert(move_code(p) + loop_code(p, body) + move_code(-p) =~= while_code(p, body));
}

/// A loop on a slot that holds 0 is skipped.
pub proof fn lemma_loop_code_skip(p: int, body: Seq<BfCmd>, s: Machine)
    requires
        balanced(body),
        s.slot(p) == 0,
    ensures
        runs(loop_code(p, body), s.moved(p), s.moved(p)),
{
    lemma_runs_move(-p, s);
    lemma_runs_move(p, s);
    lemma_runs_balanced(move_code(-p), s, s.moved(-p));
    lemma_runs_balanced(move_code(p), s, s.moved(p));
    lemma_balanced_concat(move_code(-p), body);
    lemma_balanced_concat(move_code(-p) + body, move_code(p));
    lemma_loop_skip(move_code(-p) + body + move_code(p), s.moved(p));
}

/// A loop on a slot that does not hold 0 runs its body, which must come
/// back to where it started, and then starts again.
pub proof fn lemma_loop_code_turn(p: int, body: Seq<BfCmd>, s: Machine, t: Machine, u: Machine)
    requires
        s.slot(p) != 0,
        runs(body, s, t),
        t.ptr == s.ptr,
        runs(loop_code(p, body), t.moved(p), u),
    ensures
        runs(loop_code(p, body), s.moved(p), u),
{
    lemma_runs_framed(p, body, s, t);
    lemma_loop_turn(move_code(-p) + body + move_code(p), s.moved(p), t.moved(p), u);
}

/// `while_code(p, body)` is no more than the way to slot `p`, the loop, and
/// the way back: what it does, the loop does with the pointer on the slot.
pub proof fn lemma_loop_from_while(p: int, body: Seq<BfCmd>, s: Machine, u: Machine)
    requires
        runs(while_code(p, body), s, u),
    ensures
        runs(loop_code(p, body), s.moved(p), u.moved(p)),
{
    let whole = while_code(p, body);
    let rest = loop_code(p, body) + move_code(-p);
    lemma_runs_balanced(whole, s, u);
    lemma_runs_move(p, s);
    lemma_runs_move(-p, s);
    lemma_runs_balanced(move_code(p), s, s.moved(p));
    lemma_runs_balanced(move_code(-p), s, s.moved(-p));
    assert(whole =~= move_code(p) + rest);
    lemma_closes_concat(move_code(p), 0, rest, 0);
    lemma_runs_split(move_code(p), rest, s, s.moved(p), u);
    lemma_balanced_back(loop_code(p, body), move_code(-p));
    let mid = lemma_runs_middle(loop_code(p, body), move_code(-p), s.moved(p), u);
    lemma_runs_move(-p, mid);
    lemma_runs_one_result(move_code(-p), mid, mid.moved(-p), u);
    assert(u.moved(p) =~= mid);
}

/// `while_code(p, body)` with a slot `p` that does not hold 0 runs the body,
/// which must come back to where it started, and then starts again.
pub proof fn lemma_while_turn(p: int, body: Seq<BfCmd>, s: Machine, t: Machine, u: Machine)
    requires
        s.slot(p) != 0,
        runs(body, s, t),
        t.ptr == s.ptr,
        runs(while_code(p, body), t, u),
    ensures
        runs(while_code(p, body), s, u),
{
    lemma_loop_from_while(p, body, t, u);
    lemma_loop_code_turn(p, body, s, t, u.moved(p));
    lemma_while_from_loop(p, body, s, u);
}

/// `while_code(p, body)` with 0 in slot `p` does nothing.
pub proof fn lemma_while_skip(p: int, body: Seq<BfCmd>, s: Machine)
    requires
        balanced(body),
        s.slot(p) == 0,
    ensures
        runs(while_code(p, body), s, s),
{
    lemma_loop_code_skip(p, body, s);
    lemma_while_from_loop(p, body, s, s);
}

/// `while_code(p, body)` runs the body once if the body leaves 0 in slot
/// `p`.
pub proof fn lemma_while_once(p: int, body: Seq<BfCmd>, s: Machine, t: Machine)
    requires
        s.slot(p) != 0,
        runs(body, s, t),
        t.ptr == s.ptr,
        t.slot(p) == 0,
    ensures
        runs(while_code(p, body), s, t),
{
    lemma_runs_balanced(body, s, t);
    lemma_loop_code_skip(p, body, t);
    lemma_loop_code_turn(p, body, s, t, t.moved(p));
    lemma_while_from_loop(p, body, s, t);
}

/// The loop that counts slot `p` down ends with 0 in the slot, whatever it
/// held.
pub proof fn lemma_runs_clear(p: int, s: Machine)
    ensures
        runs(while_code(p, add_code(p, -1)), s, s.with_cell(s.ptr + p, 0)),
{
    lemma_runs_clear_loop(p, s);
    lemma_while_from_loop(p, add_code(p, -1), s, s.with_cell(s.ptr + p, 0));
}

/// The loop that counts slot `p` down, met with the pointer on the slot.
proof fn lemma_runs_clear_loop(p: int, s: Machine)
    ensures
        runs(loop_code(p, add_code(p, -1)), s.moved(p), s.with_cell(s.ptr + p, 0).moved(p)),
    decreases s.slot(p),
{
    let body = add_code(p, -1);
    let done = s.with_cell(s.ptr + p, 0);
    lemma_runs_add(p, -1, s);
    lemma_runs_balanced(body, s, s.added(p, -1));
    if s.slot(p) == 0 {
        lemma_loop_code_skip(p, body, s);
        assert(done.tape =~= s.tape);
        assert(done =~= s);
    } else {
        let t = s.added(p, -1);
        lemma_runs_clear_loop(p, t);
        assert(t.with_cell(t.ptr + p, 0).tape =~= done.tape);
        assert(t.with_cell(t.ptr + p, 0) =~= done);
        lemma_loop_code_turn(p, body, s, t, done.moved(p));
    }
}

/// The state after slot `p` has been moved into slot `q`: slot `q` holds
/// the sum of both, and slot `p` holds 0.
pub open spec fn transferred(s: Machine, p: int, q: int) -> Machine {
    s.with_cell(s.ptr + q, wrap(s.slot(q) + s.slot(p))).with_cell(s.ptr + p, 0)
}

/// The loop that moves slot `p` into slot `q`, met with the pointer on slot
/// `p`.
proof fn lemma_runs_transfer_loop(p: int, q: int, s: Machine)
    requires
        p != q,
    ensures
        runs(
            loop_code(p, add_code(p, -1) + add_code(q, 1)),
            s.moved(p),
            transferred(s, p, q).moved(p),
        ),
    decreases s.slot(p),
{
    let body = add_code(p, -1) + add_code(q, 1);
    let done = transferred(s, p, q);
    let lowered = s.added(p, -1);
    let t = lowered.added(q, 1);
    lemma_runs_add(p, -1, s);
    lemma_runs_add(q, 1, lowered);
    lemma_runs_concat(add_code(p, -1), add_code(q, 1), s, lowered, t);
    lemma_runs_balanced(body, s, t);
    if s.slot(p) == 0 {
        lemma_loop_code_skip(p, body, s);
        assert(done.tape =~= s.tape);
        assert(done =~= s);
    } else {
        lemma_runs_transfer_loop(p, q, t);
        assert(transferred(t, p, q).tape =~= done.tape);
        assert(transferred(t, p, q) =~= done);
        lemma_loop_code_turn(p, body, s, t, done.moved(p));
    }
}

/// The loop that counts slot `p` down and slot `q` up moves the one into
/// the other.
pub proof fn lemma_runs_transfer(p: int, q: int, s: Machine)
    requires
        p != q,
    ensures
        runs(while_code(p, add_code(p, -1) + add_code(q, 1)), s, transferred(s, p, q)),
{
    lemma_runs_transfer_loop(p, q, s);
    lemma_while_from_loop(p, add_code(p, -1) + add_code(q, 1), s, transferred(s, p, q));
}

/// The state after slot `p` has been moved into slot `q` and into slot `r`.
pub open spec fn transferred_twice(s: Machine, p: int, q: int, r: int) -> Machine {
    s.with_cell(s.ptr + q, wrap(s.slot(q) + s.slot(p))).with_cell(
        s.ptr + r,
        wrap(s.slot(r) + s.slot(p)),
    ).with_cell(s.ptr + p, 0)
}

/// The loop that moves slot `p` into the slots `q` and `r`, met with the
/// pointer on slot `p`.
#[verifier::rlimit(50)]
proof fn lemma_runs_transfer_twice_loop(p: int, q: int, r: int, s: Machine)
    requires
        p != q,
        p != r,
        q != r,
    ensures
        runs(
            loop_code(p, add_code(p, -1) + add_code(q, 1) + add_code(r, 1)),
            s.moved(p),
            transferred_twice(s, p, q, r).moved(p),
        ),
    decreases s.slot(p),
{
    let body = add_code(p, -1) + add_code(q, 1) + add_code(r, 1);
    let done = transferred_twice(s, p, q, r);
    let lowered = s.added(p, -1);
    let once = lowered.added(q, 1);
    let t = once.added(r, 1);
    lemma_runs_add(p, -1, s);
    lemma_runs_add(q, 1, lowered);
    lemma_runs_add(r, 1, once);
    lemma_runs_concat(add_code(p, -1), add_code(q, 1), s, lowered, once);
    lemma_runs_concat(add_code(p, -1) + add_code(q, 1), add_code(r, 1), s, once, t);
    lemma_runs_balanced(body, s, t);
    if s.slot(p) == 0 {
        lemma_loop_code_skip(p, body, s);
        assert(done.tape =~= s.tape);
        assert(done =~= s);
    } else {
        lemma_runs_transfer_twice_loop(p, q, r, t);
        assert(transferred_twice(t, p, q, r).tape =~= done.tape);
        assert(transferred_twice(t, p, q, r) =~= done);
        lemma_loop_code_turn(p, body, s, t, done.moved(p));
    }
}

/// The loop that counts slot `p` down and the slots `q` and `r` up moves
/// the one into both.
pub proof fn lemma_runs_transfer_twice(p: int, q: int, r: int, s: Machine)
    requires
        p != q,
        p != r,
        q != r,
    ensures
        runs(
            while_code(p, add_code(p, -1) + add_code(q, 1) + add_code(r, 1)),
            s,
            transferred_twice(s, p, q, r),
        ),
{
    lemma_runs_transfer_twice_loop(p, q, r, s);
    lemma_while_from_loop(
        p,
        add_code(p, -1) + add_code(q, 1) + add_code(r, 1),
        s,
        transferred_twice(s, p, q, r),
    );
}

/// `set_code(p, x)` leaves `x` in slot `p`, whatever it held, and changes
/// nothing else.
pub proof fn lemma_runs_set(p: int, x: int, s: Machine)
    ensures
        runs(set_code(p, x), s, s.with_cell(s.ptr + p, wrap(x))),
{
    let cleared = s.with_cell(s.ptr + p, 0);
    lemma_runs_clear(p, s);
    lemma_runs_add(p, x, cleared);
    lemma_runs_concat(
        while_code(p, add_code(p, -1)),
        add_code(p, x),
        s,
        cleared,
        cleared.added(p, x),
    );
    assert(cleared.added(p, x).tape =~= s.with_cell(s.ptr + p, wrap(x)).tape);
    assert(cleared.added(p, x) =~= s.with_cell(s.ptr + p, wrap(x)));
}

/// Whether `code` moves the pointer by `n` cells and changes nothing else,
/// whatever the state.
pub open spec fn moves(code: Seq<BfCmd>, n: int) -> bool {
    forall|s: Machine| #[trigger] runs(code, s, s.moved(n))
}

/// Whether `code` adds `x` to slot `p` and changes nothing else, whatever
/// the state.
pub open spec fn adds(code: Seq<BfCmd>, p: int, x: int) -> bool {
    forall|s: Machine| #[trigger] runs(code, s, s.added(p, x))
}

/// Whether `code` leaves `x` in slot `p` and changes nothing else, whatever
/// the state.
pub open spec fn sets(code: Seq<BfCmd>, p: int, x: int) -> bool {
    forall|s: Machine| #[trigger] runs(code, s, s.with_cell(s.ptr + p, wrap(x)))
}

/// Whether `code` reads one byte into slot `p` and changes nothing else.
pub open spec fn reads(code: Seq<BfCmd>, p: int) -> bool {
    forall|s: Machine| #[trigger] runs(code, s, s.moved(p).read().moved(-p))
}

/// Whether `code` writes slot `p` and changes nothing else.
pub open spec fn writes(code: Seq<BfCmd>, p: int) -> bool {
    forall|s: Machine|
        #[trigger] runs(code, s, Machine { output: s.output.push(s.slot(p)), ..s })
}

/// Whether `code` is a loop on slot `p` around `body`: skipped if the slot
/// holds 0, and else one turn of the body, which must come back to where it
/// started, followed by the loop again.
pub open spec fn loops(code: Seq<BfCmd>, p: int, body: Seq<BfCmd>) -> bool {
    &&& forall|s: Machine| balanced(body) && s.slot(p) == 0 ==> #[trigger] runs(code, s, s)
    &&& forall|s: Machine, t: Machine, u: Machine|
        s.slot(p) != 0 && #[trigger] runs(body, s, t) && t.ptr == s.ptr && #[trigger] runs(
            code,
            t,
            u,
        ) ==> runs(code, s, u)
}

/// Whether `code` is a conditional on the flag in slot `flg` with the arms
/// `cons` and `alt`: with 1 in the flag and 0 in the scratch slot `tmp` it
/// does what the consequent does, with 0 in both what the alternate does,
/// if the arm leaves the pointer, the scratch slot and, for the consequent,
/// the flag as they were; and it ends with 0 in the flag and in the scratch
/// slot.
pub open spec fn branches(
    code: Seq<BfCmd>,
    flg: int,
    tmp: int,
    cons: Seq<BfCmd>,
    alt: Seq<BfCmd>,
) -> bool {
    &&& forall|s: Machine, t: Machine|
        s.slot(flg) == 1 && s.slot(tmp) == 0 && #[trigger] runs(cons, s, t) && t.ptr == s.ptr
            && t.slot(flg) == 1 && t.slot(tmp) == 0 && balanced(alt) ==> runs(
            code,
            s,
            t.with_cell(s.ptr + flg, 0),
        )
    &&& forall|s: Machine, t: Machine|
        s.slot(flg) == 0 && s.slot(tmp) == 0 && #[trigger] runs(alt, s, t) && t.ptr == s.ptr
            && t.slot(tmp) == 0 && balanced(cons) ==> runs(code, s, t.with_cell(s.ptr + flg, 0))
}

/// The code of the pointer algebra and of `set` does what its name says.
pub proof fn lemma_algebra(p: int, x: int)
    ensures
        moves(move_code(p), p),
        adds(add_code(p, x), p, x),
        sets(set_code(p, x), p, x),
        reads(get_code(p), p),
        writes(put_code(p), p),
{
    assert forall|s: Machine| #[trigger] runs(move_code(p), s, s.moved(p)) by {
        lemma_runs_move(p, s);
    }
    assert forall|s: Machine| #[trigger] runs(add_code(p, x), s, s.added(p, x)) by {
        lemma_runs_add(p, x, s);
    }
    assert forall|s: Machine| #[trigger]
        runs(set_code(p, x), s, s.with_cell(s.ptr + p, wrap(x))) by {
        lemma_runs_set(p, x, s);
    }
    assert forall|s: Machine| #[trigger] runs(get_code(p), s, s.moved(p).read().moved(-p)) by {
        lemma_runs_get(p, s);
    }
    assert forall|s: Machine| #[trigger]
        runs(put_code(p), s, Machine { output: s.output.push(s.slot(p)), ..s }) by {
        lemma_runs_put(p, s);
    }
}

/// The code of a loop is a loop, and the code of a conditional is a
/// conditional.
pub proof fn lemma_control(p: int, q: int, body: Seq<BfCmd>, other: Seq<BfCmd>)
    ensures
        loops(while_code(p, body), p, body),
        p != q ==> branches(if_code(p, q, body, other), p, q, body, other),
{
    let code = while_code(p, body);
    assert forall|s: Machine| balanced(body) && s.slot(p) == 0 implies #[trigger] runs(
        code,
        s,
        s,
    ) by {
        lemma_while_skip(p, body, s);
    }
    assert forall|s: Machine, t: Machine, u: Machine|
        s.slot(p) != 0 && #[trigger] runs(body, s, t) && t.ptr == s.ptr && #[trigger] runs(
            code,
            t,
            u,
        ) implies runs(code, s, u) by {
        lemma_while_turn(p, body, s, t, u);
    }
    if p != q {
        let cond = if_code(p, q, body, other);
        assert forall|s: Machine, t: Machine|
            s.slot(p) == 1 && s.slot(q) == 0 && #[trigger] runs(body, s, t) && t.ptr == s.ptr
                && t.slot(p) == 1 && t.slot(q) == 0 && balanced(other) implies runs(
            cond,
            s,
            t.with_cell(s.ptr + p, 0),
        ) by {
            lemma_runs_if_taken(p, q, body, other, s, t);
        }
        assert forall|s: Machine, t: Machine|
            s.slot(p) == 0 && s.slot(q) == 0 && #[trigger] runs(other, s, t) && t.ptr == s.ptr
                && t.slot(q) == 0 && balanced(body) implies runs(
            cond,
            s,
            t.with_cell(s.ptr + p, 0),
        ) by {
            lemma_runs_if_skipped(p, q, body, other, s, t);
        }
    }
}

/// A machine at the start of a run: the pointer on cell 0 of a tape of
/// zeros, the input `input`, and nothing written.
pub open spec fn fresh(input: Seq<u8>) -> Machine {
    Machine { tape: |c: int| 0u8, ptr: 0, input, output: Seq::empty() }
}

/// The code of the pointer algebra has no brackets to match, and a loop, a
/// `set` and a conditional have matching brackets if what they hold has.
pub proof fn lemma_balanced_builders(p: int, q: int, x: int, body: Seq<BfCmd>, other: Seq<BfCmd>)
    ensures
        balanced(move_code(p)),
        balanced(add_code(p, x)),
        balanced(get_code(p)),
        balanced(put_code(p)),
        balanced(set_code(p, x)),
        balanced(body) ==> balanced(while_code(p, body)),
        balanced(body) && balanced(other) ==> balanced(if_code(p, q, body, other)),
{
    let s = fresh(Seq::empty());
    lemma_runs_move(p, s);
    lemma_runs_balanced(move_code(p), s, s.moved(p));
    lemma_runs_add(p, x, s);
    lemma_runs_balanced(add_code(p, x), s, s.added(p, x));
    lemma_runs_get(p, s);
    lemma_runs_balanced(get_code(p), s, s.moved(p).read().moved(-p));
    lemma_runs_put(p, s);
    lemma_runs_balanced(put_code(p), s, Machine { output: s.output.push(s.slot(p)), ..s });
    lemma_runs_set(p, x, s);
    lemma_runs_balanced(set_code(p, x), s, s.with_cell(s.ptr + p, wrap(x)));
    if balanced(body) {
        lemma_while_skip(p, body, s);
        lemma_runs_balanced(while_code(p, body), s, s);
        if balanced(other) {
            lemma_balanced_if(p, q, body, other);
        }
    }
}

/// A conditional has matching brackets if its arms have.
proof fn lemma_balanced_if(flg: int, tmp: int, cons: Seq<BfCmd>, alt: Seq<BfCmd>)
    requires
        balanced(cons),
        balanced(alt),
    ensures
        balanced(if_taken_code(flg, tmp, cons)),
        balanced(if_skipped_code(flg, tmp, alt)),
        balanced(if_arms_code(flg, tmp, cons, alt)),
        balanced(if_code(flg, tmp, cons, alt)),
{
    let s = fresh(Seq::empty());
    let down = add_code(tmp, -1) + add_code(flg, -1);
    lemma_runs_add(tmp, -1, s);
    lemma_runs_add(flg, -1, s.added(tmp, -1));
    lemma_runs_concat(
        add_code(tmp, -1),
        add_code(flg, -1),
        s,
        s.added(tmp, -1),
        s.added(tmp, -1).added(flg, -1),
    );
    lemma_runs_balanced(down, s, s.added(tmp, -1).added(flg, -1));
    lemma_runs_balanced(add_code(tmp, -1), s, s.added(tmp, -1));
    lemma_balanced_concat(cons, add_code(tmp, -1));
    lemma_runs_balanced(add_code(flg, -1), s.added(tmp, -1), s.added(tmp, -1).added(flg, -1));
    lemma_balanced_concat(cons + add_code(tmp, -1), add_code(flg, -1));
    lemma_balanced_concat(down, alt);
    let taken = if_taken_code(flg, tmp, cons);
    let skipped = if_skipped_code(flg, tmp, alt);
    lemma_while_skip(flg, taken, s);
    lemma_runs_balanced(while_code(flg, taken), s, s);
    lemma_while_skip(tmp, skipped, s);
    lemma_runs_balanced(while_code(tmp, skipped), s, s);
    lemma_runs_add(flg, 1, s);
    lemma_runs_balanced(add_code(flg, 1), s, s.added(flg, 1));
    lemma_runs_add(tmp, 1, s);
    lemma_runs_balanced(add_code(tmp, 1), s, s.added(tmp, 1));
    lemma_balanced_concat(while_code(flg, taken), add_code(flg, 1));
    lemma_balanced_concat(while_code(flg, taken) + add_code(flg, 1), add_code(tmp, 1));
    lemma_balanced_concat(
        while_code(flg, taken) + add_code(flg, 1) + add_code(tmp, 1),
        while_code(tmp, skipped),
    );
    lemma_runs_set(flg, 0, s);
    lemma_runs_balanced(set_code(flg, 0), s, s.with_cell(s.ptr + flg, wrap(0)));
    lemma_balanced_concat(if_arms_code(flg, tmp, cons, alt), set_code(flg, 0));
}

/// A conditional whose flag holds 1 runs its consequent, and nothing else,
/// if the consequent leaves the flag, the scratch cell and the pointer as
/// they were. It ends with 0 in the flag.
pub proof fn lemma_runs_if_taken(
    flg: int,
    tmp: int,
    cons: Seq<BfCmd>,
    alt: Seq<BfCmd>,
    s: Machine,
    t: Machine,
)
    requires
        flg != tmp,
        s.slot(flg) == 1,
        s.slot(tmp) == 0,
        runs(cons, s, t),
        t.ptr == s.ptr,
        t.slot(flg) == 1,
        t.slot(tmp) == 0,
        balanced(alt),
    ensures
        runs(if_code(flg, tmp, cons, alt), s, t.with_cell(s.ptr + flg, 0)),
{
    lemma_runs_arms_taken(flg, tmp, cons, alt, s, t);
    lemma_runs_set(flg, 0, t);
    lemma_runs_concat(
        if_arms_code(flg, tmp, cons, alt),
        set_code(flg, 0),
        s,
        t,
        t.with_cell(s.ptr + flg, 0),
    );
}

/// A conditional whose flag holds 0 runs its alternate, and nothing else,
/// if the alternate leaves 0 in the scratch cell and the pointer as it was.
/// It ends with 0 in the flag.
pub proof fn lemma_runs_if_skipped(
    flg: int,
    tmp: int,
    cons: Seq<BfCmd>,
    alt: Seq<BfCmd>,
    s: Machine,
    t: Machine,
)
    requires
        flg != tmp,
        s.slot(flg) == 0,
        s.slot(tmp) == 0,
        runs(alt, s, t),
        t.ptr == s.ptr,
        t.slot(tmp) == 0,
        balanced(cons),
    ensures
        runs(if_code(flg, tmp, cons, alt), s, t.with_cell(s.ptr + flg, 0)),
{
    lemma_runs_arms_skipped(flg, tmp, cons, alt, s, t);
    lemma_runs_set(flg, 0, t);
    lemma_runs_concat(
        if_arms_code(flg, tmp, cons, alt),
        set_code(flg, 0),
        s,
        t,
        t.with_cell(s.ptr + flg, 0),
    );
}

/// The two loops of a conditional whose flag holds 1 run the consequent, and
/// nothing else; they leave the flag at 1.
proof fn lemma_runs_arms_taken(
    flg: int,
    tmp: int,
    cons: Seq<BfCmd>,
    alt: Seq<BfCmd>,
    s: Machine,
    t: Machine,
)
    requires
        flg != tmp,
        s.slot(flg) == 1,
        s.slot(tmp) == 0,
        runs(cons, s, t),
        t.ptr == s.ptr,
        t.slot(flg) == 1,
        t.slot(tmp) == 0,
        balanced(alt),
    ensures
        runs(if_arms_code(flg, tmp, cons, alt), s, t),
{
    let taken = if_taken_code(flg, tmp, cons);
    let skipped = if_skipped_code(flg, tmp, alt);
    lemma_runs_balanced(cons, s, t);
    lemma_balanced_if(flg, tmp, cons, alt);
    let a = t.added(tmp, -1);
    let b = a.added(flg, -1);
    lemma_runs_add(tmp, -1, t);
    lemma_runs_add(flg, -1, a);
    lemma_runs_concat(cons, add_code(tmp, -1), s, t, a);
    lemma_runs_concat(cons + add_code(tmp, -1), add_code(flg, -1), s, a, b);
    lemma_while_once(flg, taken, s, b);
    let c = b.added(flg, 1);
    let d = c.added(tmp, 1);
    lemma_runs_add(flg, 1, b);
    lemma_runs_add(tmp, 1, c);
    assert(d.tape =~= t.tape);
    assert(d =~= t);
    lemma_while_skip(tmp, skipped, t);
    lemma_runs_concat(while_code(flg, taken), add_code(flg, 1), s, b, c);
    lemma_runs_concat(while_code(flg, taken) + add_code(flg, 1), add_code(tmp, 1), s, c, t);
    lemma_runs_concat(
        while_code(flg, taken) + add_code(flg, 1) + add_code(tmp, 1),
        while_code(tmp, skipped),
        s,
        t,
        t,
    );
}

/// The two loops of a conditional whose flag holds 0 run the alternate, and
/// nothing else.
proof fn lemma_runs_arms_skipped(
    flg: int,
    tmp: int,
    cons: Seq<BfCmd>,
    alt: Seq<BfCmd>,
    s: Machine,
    t: Machine,
)
    requires
        flg != tmp,
        s.slot(flg) == 0,
        s.slot(tmp) == 0,
        runs(alt, s, t),
        t.ptr == s.ptr,
        t.slot(tmp) == 0,
        balanced(cons),
    ensures
        runs(if_arms_code(flg, tmp, cons, alt), s, t),
{
    let taken = if_taken_code(flg, tmp, cons);
    let skipped = if_skipped_code(flg, tmp, alt);
    lemma_runs_balanced(alt, s, t);
    lemma_balanced_if(flg, tmp, cons, alt);
    lemma_while_skip(flg, taken, s);
    let a = s.added(flg, 1);
    let b = a.added(tmp, 1);
    lemma_runs_add(flg, 1, s);
    lemma_runs_add(tmp, 1, a);
    let c = b.added(tmp, -1);
    let d = c.added(flg, -1);
    lemma_runs_add(tmp, -1, b);
    lemma_runs_add(flg, -1, c);
    assert(d.tape =~= s.tape);
    assert(d =~= s);
    lemma_runs_concat(add_code(tmp, -1), add_code(flg, -1), b, c, s);
    lemma_runs_concat(add_code(tmp, -1) + add_code(flg, -1), alt, b, s, t);
    lemma_while_once(tmp, skipped, b, t);
    lemma_runs_concat(while_code(flg, taken), add_code(flg, 1), s, s, a);
    lemma_runs_concat(while_code(flg, taken) + add_code(flg, 1), add_code(tmp, 1), s, a, b);
    lemma_runs_concat(
        while_code(flg, taken) + add_code(flg, 1) + add_code(tmp, 1),
        while_code(tmp, skipped),
        s,
        b,
        t,
    );
}

} // verus!
