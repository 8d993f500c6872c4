//! Every routine, and every compiled program, is a text whose brackets
//! match.
use crate::command::{emit_all, BfCmd};
use crate::effect::lemma_balanced_builders;
use crate::generator::arith::{
    and_code, and_step, const_code, const_step, inc_code, not_code, not_flip_step, not_restore_step,
    or_code, or_step, seq_down, seq_up, shl_carry_step, shl_code, shl_drop_code, shl_fold_step,
    shl_high_code, shl_once_code, shl_weigh_step, xor_code, xor_flip_code, xor_scratch, xor_step,
};
use crate::generator::control::{
    borrow_code, carry_code, decs_code, incs_code, set_code, while_code,
};
use crate::generator::dispatch::{
    branch_code, dispatch_code, inst_code, ip_to_sp_code, program_code, queue_block_code,
    queue_code, routine_code, sp_to_ip_code,
};
use crate::generator::print::{
    carry_step, digits_code, divmod_code, gather_step, last_digit_code, negate_code, output_step,
    print_code, sign_code, write_digit_code,
};
use crate::generator::{add_code, move_code, put_code};
use crate::isa::Inst;
use crate::machine::{
    balanced, lemma_balanced_concat, lemma_balanced_loop, lemma_balanced_plain, lemma_run_emit_all,
};
use crate::opcode::{opcode_of, opcode_table};
use vstd::arithmetic::power2::pow2;
use vstd::prelude::*;

verus! {

/// A sequence of steps has matching brackets if each step has.
pub proof fn lemma_balanced_seq_up(lo: int, hi: int, step: spec_fn(int) -> Seq<BfCmd>)
    requires
        forall|i: int| lo <= i < hi ==> balanced(#[trigger] step(i)),
    ensures
        balanced(seq_up(lo, hi, step)),
    decreases hi - lo,
{
    if hi > lo {
        lemma_balanced_seq_up(lo, hi - 1, step);
        lemma_balanced_concat(seq_up(lo, hi - 1, step), step(hi - 1));
    }
}

/// A sequence of steps in descending order has matching brackets if each
/// step has.
pub proof fn lemma_balanced_seq_down(lo: int, hi: int, step: spec_fn(int) -> Seq<BfCmd>)
    requires
        forall|i: int| lo <= i < hi ==> balanced(#[trigger] step(i)),
    ensures
        balanced(seq_down(lo, hi, step)),
    decreases hi - lo,
{
    if hi > lo {
        lemma_balanced_seq_down(lo + 1, hi, step);
        lemma_balanced_concat(seq_down(lo + 1, hi, step), step(lo));
    }
}

/// The concatenation of three codes with matching brackets has matching
/// brackets.
proof fn lemma_balanced_3(a: Seq<BfCmd>, b: Seq<BfCmd>, c: Seq<BfCmd>)
    requires
        balanced(a),
        balanced(b),
        balanced(c),
    ensures
        balanced(a + b),
        balanced(a + b + c),
{
    lemma_balanced_concat(a, b);
    lemma_balanced_concat(a + b, c);
}

/// The concatenation of four codes with matching brackets has matching
/// brackets.
proof fn lemma_balanced_4(a: Seq<BfCmd>, b: Seq<BfCmd>, c: Seq<BfCmd>, d: Seq<BfCmd>)
    requires
        balanced(a),
        balanced(b),
        balanced(c),
        balanced(d),
    ensures
        balanced(a + b + c),
        balanced(a + b + c + d),
{
    lemma_balanced_3(a, b, c);
    lemma_balanced_concat(a + b + c, d);
}

/// A loop of the form `[` body `]` around commands without brackets.
proof fn lemma_balanced_plain_loop(body: Seq<BfCmd>)
    requires
        forall|i: int| 0 <= i < body.len() ==> body[i] != BfCmd::Open && body[i] != BfCmd::Close,
    ensures
        balanced(seq![BfCmd::Open] + body + seq![BfCmd::Close]),
{
    lemma_balanced_plain(body);
    lemma_balanced_loop(body);
}

/// The carry chain and the borrow chain have matching brackets.
pub proof fn lemma_balanced_chains(p: int)
    ensures
        balanced(carry_code()),
        balanced(borrow_code()),
        balanced(incs_code(p)),
        balanced(decs_code(p)),
{
    let scan = seq![BfCmd::Open] + seq![BfCmd::Right] + seq![BfCmd::Close];
    let sweep = seq![BfCmd::Open] + seq![BfCmd::Dec, BfCmd::Left] + seq![BfCmd::Close];
    lemma_balanced_plain_loop(seq![BfCmd::Right]);
    lemma_balanced_plain_loop(seq![BfCmd::Dec, BfCmd::Left]);
    lemma_balanced_plain(seq![BfCmd::Inc, BfCmd::Left]);
    lemma_balanced_plain(seq![BfCmd::Right]);
    lemma_balanced_4(scan, seq![BfCmd::Inc, BfCmd::Left], sweep, seq![BfCmd::Right]);
    assert(scan + seq![BfCmd::Inc, BfCmd::Left] + sweep + seq![BfCmd::Right] =~= carry_code());
    let lend = seq![BfCmd::Open] + seq![BfCmd::Inc, BfCmd::Inc, BfCmd::Right, BfCmd::Dec]
        + seq![BfCmd::Close];
    let back = seq![BfCmd::Open] + seq![BfCmd::Left] + seq![BfCmd::Close];
    lemma_balanced_plain_loop(seq![BfCmd::Inc, BfCmd::Inc, BfCmd::Right, BfCmd::Dec]);
    lemma_balanced_plain_loop(seq![BfCmd::Left]);
    lemma_balanced_plain(seq![BfCmd::Dec]);
    lemma_balanced_plain(seq![BfCmd::Left]);
    lemma_balanced_4(seq![BfCmd::Dec], lend, seq![BfCmd::Left], back);
    lemma_balanced_concat(seq![BfCmd::Dec] + lend + seq![BfCmd::Left] + back, seq![BfCmd::Right]);
    assert(seq![BfCmd::Dec] + lend + seq![BfCmd::Left] + back + seq![BfCmd::Right]
        =~= borrow_code());
    lemma_balanced_builders(p, 0, 0, Seq::empty(), Seq::empty());
    lemma_balanced_builders(-p, 0, 0, Seq::empty(), Seq::empty());
    lemma_balanced_3(move_code(p), carry_code(), move_code(-p));
    lemma_balanced_3(move_code(p), borrow_code(), move_code(-p));
}

/// The loop that holds two visits has matching brackets.
proof fn lemma_balanced_pair_loop(p: int, a: int, x: int, b: int, y: int)
    ensures
        balanced(add_code(a, x) + add_code(b, y)),
        balanced(while_code(p, add_code(a, x) + add_code(b, y))),
{
    lemma_balanced_builders(a, 0, x, Seq::empty(), Seq::empty());
    lemma_balanced_builders(b, 0, y, Seq::empty(), Seq::empty());
    lemma_balanced_concat(add_code(a, x), add_code(b, y));
    lemma_balanced_builders(p, 0, 0, add_code(a, x) + add_code(b, y), Seq::empty());
}

/// The constant load and the routines for the bitwise operations, the shift
/// and the increment have matching brackets.
pub proof fn lemma_balanced_arith(a: i32)
    ensures
        balanced(const_code(a)),
        balanced(not_code()),
        balanced(and_code()),
        balanced(or_code()),
        balanced(xor_code()),
        balanced(shl_code()),
        balanced(inc_code()),
{
    lemma_balanced_builders(0, 0, 1, Seq::empty(), Seq::empty());
    lemma_balanced_builders(0, 0, -1, Seq::empty(), Seq::empty());
    lemma_balanced_builders(33, 0, -1, Seq::empty(), Seq::empty());
    lemma_balanced_builders(-33, 0, 0, Seq::empty(), Seq::empty());
    lemma_balanced_builders(-66, 0, 0, Seq::empty(), Seq::empty());
    lemma_balanced_builders(33, 0, 0, Seq::empty(), Seq::empty());
    // constant load
    let load = |i: int| const_step(a as u32, i);
    assert forall|i: int| 0 <= i < 32 implies balanced(#[trigger] load(i)) by {
        lemma_balanced_builders(
            1 + i,
            0,
            crate::generator::arith::bit_of(a as u32, i as u32) as int,
            Seq::empty(),
            Seq::empty(),
        );
    }
    lemma_balanced_seq_up(0, 32, |i: int| const_step(a as u32, i));
    lemma_balanced_3(
        add_code(0, 1),
        seq_up(0, 32, |i: int| const_step(a as u32, i)),
        move_code(33),
    );
    // complement
    let flip = |i: int| not_flip_step(i);
    assert forall|i: int| 0 <= i < 32 implies balanced(#[trigger] flip(i)) by {
        lemma_balanced_pair_loop(1 + i, 1 + i, -1, 2 + i, -1);
        lemma_balanced_builders(2 + i, 0, 1, Seq::empty(), Seq::empty());
        lemma_balanced_concat(
            add_code(2 + i, 1),
            while_code(1 + i, add_code(1 + i, -1) + add_code(2 + i, -1)),
        );
    }
    let restore = |i: int| not_restore_step(i);
    assert forall|i: int| 0 <= i < 32 implies balanced(#[trigger] restore(i)) by {
        lemma_balanced_pair_loop(2 + i, 2 + i, -1, 1 + i, 1);
    }
    lemma_balanced_seq_down(0, 32, |i: int| not_flip_step(i));
    lemma_balanced_seq_up(0, 32, |i: int| not_restore_step(i));
    lemma_balanced_4(
        move_code(-33),
        seq_down(0, 32, |i: int| not_flip_step(i)),
        seq_up(0, 32, |i: int| not_restore_step(i)),
        move_code(33),
    );
    // conjunction
    let conjoin = |i: int| and_step(i);
    assert forall|i: int| 0 <= i < 32 implies balanced(#[trigger] conjoin(i)) by {
        lemma_balanced_builders(34 + i, 0, 1, Seq::empty(), Seq::empty());
        lemma_balanced_builders(34 + i, 0, -1, Seq::empty(), Seq::empty());
        lemma_balanced_builders(1 + i, 0, 0, Seq::empty(), Seq::empty());
        lemma_balanced_concat(add_code(34 + i, 1), set_code(1 + i, 0));
        lemma_balanced_builders(
            34 + i,
            0,
            0,
            add_code(34 + i, 1) + set_code(1 + i, 0),
            Seq::empty(),
        );
        lemma_balanced_concat(
            add_code(34 + i, -1),
            while_code(34 + i, add_code(34 + i, 1) + set_code(1 + i, 0)),
        );
    }
    lemma_balanced_seq_down(0, 32, |i: int| and_step(i));
    lemma_balanced_4(
        move_code(-66),
        seq_down(0, 32, |i: int| and_step(i)),
        add_code(33, -1),
        move_code(33),
    );
    // disjunction
    let disjoin = |i: int| or_step(i);
    assert forall|i: int| 0 <= i < 32 implies balanced(#[trigger] disjoin(i)) by {
        lemma_balanced_builders(34 + i, 0, -1, Seq::empty(), Seq::empty());
        lemma_balanced_builders(1 + i, 0, 1, Seq::empty(), Seq::empty());
        lemma_balanced_concat(add_code(34 + i, -1), set_code(1 + i, 1));
        lemma_balanced_builders(
            34 + i,
            0,
            0,
            add_code(34 + i, -1) + set_code(1 + i, 1),
            Seq::empty(),
        );
    }
    lemma_balanced_seq_down(0, 32, |i: int| or_step(i));
    lemma_balanced_4(
        move_code(-66),
        seq_down(0, 32, |i: int| or_step(i)),
        add_code(33, -1),
        move_code(33),
    );
    // exclusive disjunction
    let differ = |i: int| xor_step(i);
    assert forall|i: int| 0 <= i < 32 implies balanced(#[trigger] differ(i)) by {
        let t = xor_scratch(i);
        lemma_balanced_pair_loop(1 + i, 1 + i, -1, t, -1);
        lemma_balanced_pair_loop(t, t, -1, 1 + i, 1);
        lemma_balanced_builders(34 + i, 0, -1, Seq::empty(), Seq::empty());
        lemma_balanced_builders(t, 0, 1, Seq::empty(), Seq::empty());
        lemma_balanced_4(
            add_code(34 + i, -1),
            while_code(1 + i, add_code(1 + i, -1) + add_code(t, -1)),
            while_code(t, add_code(t, -1) + add_code(1 + i, 1)),
            add_code(t, 1),
        );
        lemma_balanced_builders(34 + i, 0, 0, xor_flip_code(i), Seq::empty());
    }
    lemma_balanced_seq_down(0, 32, |i: int| xor_step(i));
    lemma_balanced_4(
        move_code(-66),
        seq_down(0, 32, |i: int| xor_step(i)),
        add_code(33, -1),
        move_code(33),
    );
    // shift
    let fold = |i: int| shl_fold_step(i);
    assert forall|i: int| 6 <= i < 32 implies balanced(#[trigger] fold(i)) by {
        lemma_balanced_builders(34 + i, 0, -1, Seq::empty(), Seq::empty());
        lemma_balanced_builders(39, 0, 1, Seq::empty(), Seq::empty());
        lemma_balanced_concat(add_code(34 + i, -1), set_code(39, 1));
        lemma_balanced_builders(
            34 + i,
            0,
            0,
            add_code(34 + i, -1) + set_code(39, 1),
            Seq::empty(),
        );
    }
    let clear = |i: int| set_code(1 + i, 0);
    assert forall|i: int| 0 <= i < 32 implies balanced(#[trigger] clear(i)) by {
        lemma_balanced_builders(1 + i, 0, 0, Seq::empty(), Seq::empty());
    }
    let weigh = |i: int| shl_weigh_step(i);
    assert forall|i: int| 1 <= i < 5 implies balanced(#[trigger] weigh(i)) by {
        lemma_balanced_pair_loop(34 + i, 34 + i, -1, 34, pow2(i as nat) as int);
    }
    let carry = |i: int| shl_carry_step(i);
    assert forall|i: int| 0 <= i < 31 implies balanced(#[trigger] carry(i)) by {
        lemma_balanced_pair_loop(1 + i, 1 + i, -1, 2 + i, 1);
    }
    lemma_balanced_seq_down(6, 32, fold);
    lemma_balanced_seq_up(0, 32, clear);
    lemma_balanced_seq_down(1, 5, weigh);
    lemma_balanced_seq_down(0, 31, carry);
    lemma_balanced_builders(39, 0, -1, Seq::empty(), Seq::empty());
    lemma_balanced_concat(add_code(39, -1), seq_up(0, 32, clear));
    lemma_balanced_builders(39, 0, 0, shl_drop_code(), Seq::empty());
    lemma_balanced_concat(seq_down(6, 32, fold), while_code(39, shl_drop_code()));
    lemma_balanced_builders(34, 0, -1, Seq::empty(), Seq::empty());
    lemma_balanced_builders(32, 0, 0, Seq::empty(), Seq::empty());
    lemma_balanced_3(add_code(34, -1), set_code(32, 0), seq_down(0, 31, carry));
    lemma_balanced_builders(34, 0, 0, shl_once_code(), Seq::empty());
    lemma_balanced_4(
        move_code(-66),
        shl_high_code(),
        seq_down(1, 5, weigh),
        while_code(34, shl_once_code()),
    );
    lemma_balanced_3(
        move_code(-66) + shl_high_code() + seq_down(1, 5, weigh) + while_code(
            34,
            shl_once_code(),
        ),
        add_code(33, -1),
        move_code(33),
    );
    // increment
    lemma_balanced_chains(1);
    lemma_balanced_builders(0, 0, 0, Seq::empty(), Seq::empty());
    lemma_balanced_4(move_code(-33), add_code(0, -1), incs_code(1), add_code(0, 1));
    lemma_balanced_3(
        move_code(-33) + add_code(0, -1) + incs_code(1) + add_code(0, 1),
        set_code(33, 0),
        move_code(33),
    );
}

/// The division idiom has matching brackets.
pub proof fn lemma_balanced_divmod()
    ensures
        balanced(divmod_code()),
{
    let count = seq![BfCmd::Open] + seq![BfCmd::Right, BfCmd::Inc, BfCmd::Right, BfCmd::Right]
        + seq![BfCmd::Close];
    let refill = seq![BfCmd::Open] + seq![BfCmd::Dec, BfCmd::Left, BfCmd::Inc, BfCmd::Right]
        + seq![BfCmd::Close];
    let tail = seq![BfCmd::Right, BfCmd::Inc, BfCmd::Right, BfCmd::Right];
    let full = seq![BfCmd::Open] + (seq![BfCmd::Inc] + refill + tail) + seq![BfCmd::Close];
    let front = seq![BfCmd::Dec, BfCmd::Right, BfCmd::Dec];
    let back = seq![BfCmd::Left, BfCmd::Left, BfCmd::Left, BfCmd::Left, BfCmd::Left];
    let body = front + count + seq![BfCmd::Right] + full + back;
    lemma_balanced_plain_loop(seq![BfCmd::Right, BfCmd::Inc, BfCmd::Right, BfCmd::Right]);
    lemma_balanced_plain_loop(seq![BfCmd::Dec, BfCmd::Left, BfCmd::Inc, BfCmd::Right]);
    lemma_balanced_plain(seq![BfCmd::Inc]);
    lemma_balanced_plain(tail);
    lemma_balanced_3(seq![BfCmd::Inc], refill, tail);
    lemma_balanced_loop(seq![BfCmd::Inc] + refill + tail);
    lemma_balanced_plain(front);
    lemma_balanced_plain(seq![BfCmd::Right]);
    lemma_balanced_plain(back);
    lemma_balanced_4(front, count, seq![BfCmd::Right], full);
    lemma_balanced_concat(front + count + seq![BfCmd::Right] + full, back);
    lemma_balanced_loop(body);
    assert(seq![BfCmd::Open] + body + seq![BfCmd::Close] =~= divmod_code());
}

/// The commands that add the digits of a number have no brackets.
pub proof fn lemma_balanced_digits(v: nat, j: int)
    ensures
        balanced(digits_code(v, j)),
    decreases v,
{
    if v != 0 {
        lemma_balanced_digits(v / 10, j + 1);
        lemma_balanced_builders(33 + 3 * j, 0, (v % 10) as int, Seq::empty(), Seq::empty());
        lemma_balanced_concat(add_code(33 + 3 * j, (v % 10) as int), digits_code(v / 10, j + 1));
    }
}

/// The sign handling of the decimal output has matching brackets.
proof fn lemma_balanced_sign()
    ensures
        balanced(sign_code()),
{
    lemma_balanced_arith(0);
    lemma_balanced_chains(1);
    lemma_balanced_builders(33, 0, 45, Seq::empty(), Seq::empty());
    lemma_balanced_builders(33, 0, 0, Seq::empty(), Seq::empty());
    lemma_balanced_builders(-33, 0, 0, Seq::empty(), Seq::empty());
    lemma_balanced_builders(0, 0, -1, Seq::empty(), Seq::empty());
    lemma_balanced_builders(0, 0, 1, Seq::empty(), Seq::empty());
    lemma_balanced_pair_loop(32, 32, -1, 34, 1);
    lemma_balanced_pair_loop(34, 34, -1, 32, 1);
    lemma_balanced_4(add_code(33, 45), put_code(33), set_code(33, 0), move_code(33));
    lemma_balanced_3(
        add_code(33, 45) + put_code(33) + set_code(33, 0) + move_code(33),
        not_code(),
        move_code(-33),
    );
    lemma_balanced_3(
        add_code(33, 45) + put_code(33) + set_code(33, 0) + move_code(33) + not_code() + move_code(
            -33,
        ),
        add_code(0, -1),
        incs_code(1),
    );
    lemma_balanced_3(
        add_code(33, 45) + put_code(33) + set_code(33, 0) + move_code(33) + not_code() + move_code(
            -33,
        ) + add_code(0, -1) + incs_code(1),
        add_code(0, 1),
        while_code(32, add_code(32, -1) + add_code(34, 1)),
    );
    lemma_balanced_builders(32, 0, 0, negate_code(), Seq::empty());
    lemma_balanced_concat(
        while_code(32, negate_code()),
        while_code(34, add_code(34, -1) + add_code(32, 1)),
    );
}

/// One carry step of the decimal output has matching brackets.
proof fn lemma_balanced_carry_step(j: int)
    ensures
        balanced(carry_step(j)),
{
    lemma_balanced_divmod();
    lemma_balanced_builders(34 + 3 * j, 0, 10, Seq::empty(), Seq::empty());
    lemma_balanced_builders(34 + 3 * j, 0, 0, Seq::empty(), Seq::empty());
    lemma_balanced_builders(33 + 3 * j, 0, 0, Seq::empty(), Seq::empty());
    lemma_balanced_builders(-(33 + 3 * j), 0, 0, Seq::empty(), Seq::empty());
    lemma_balanced_pair_loop(35 + 3 * j, 35 + 3 * j, -1, 33 + 3 * j, 1);
    lemma_balanced_4(
        add_code(34 + 3 * j, 10),
        move_code(33 + 3 * j),
        divmod_code(),
        move_code(-(33 + 3 * j)),
    );
    lemma_balanced_3(
        add_code(34 + 3 * j, 10) + move_code(33 + 3 * j) + divmod_code() + move_code(
            -(33 + 3 * j),
        ),
        set_code(34 + 3 * j, 0),
        while_code(35 + 3 * j, add_code(35 + 3 * j, -1) + add_code(33 + 3 * j, 1)),
    );
}

/// The output of one decimal place has matching brackets.
proof fn lemma_balanced_output_step(j: int)
    ensures
        balanced(write_digit_code(j)),
        balanced(output_step(j)),
{
    let t0 = 33 + 3 * j;
    let t1 = 34 + 3 * j;
    let t2 = 35 + 3 * j;
    let s1 = 31 + 3 * j;
    lemma_balanced_builders(t1, 0, 0, Seq::empty(), Seq::empty());
    lemma_balanced_builders(s1, 0, 1, Seq::empty(), Seq::empty());
    lemma_balanced_concat(set_code(t1, 0), add_code(s1, 1));
    lemma_balanced_builders(t1, 0, 0, set_code(t1, 0) + add_code(s1, 1), Seq::empty());
    lemma_balanced_builders(t2, 0, 48, Seq::empty(), Seq::empty());
    lemma_balanced_builders(t2, 0, 0, Seq::empty(), Seq::empty());
    lemma_balanced_4(
        while_code(t1, set_code(t1, 0) + add_code(s1, 1)),
        add_code(t2, 48),
        put_code(t2),
        set_code(t2, 0),
    );
    lemma_balanced_builders(t0, 0, -1, Seq::empty(), Seq::empty());
    lemma_balanced_builders(t1, 0, 1, Seq::empty(), Seq::empty());
    lemma_balanced_builders(t2, 0, 1, Seq::empty(), Seq::empty());
    lemma_balanced_3(add_code(t0, -1), add_code(t1, 1), add_code(t2, 1));
    lemma_balanced_builders(
        t0,
        0,
        0,
        add_code(t0, -1) + add_code(t1, 1) + add_code(t2, 1),
        Seq::empty(),
    );
    lemma_balanced_builders(t1, 0, 0, write_digit_code(j), Seq::empty());
    lemma_balanced_concat(
        while_code(t0, add_code(t0, -1) + add_code(t1, 1) + add_code(t2, 1)),
        while_code(t1, write_digit_code(j)),
    );
}

/// The decimal output has matching brackets.
pub proof fn lemma_balanced_print()
    ensures
        balanced(print_code()),
{
    lemma_balanced_sign();
    let gather = |i: int| gather_step(i);
    assert forall|i: int| 0 <= i < 32 implies balanced(#[trigger] gather(i)) by {
        lemma_balanced_digits(pow2(i as nat), 0);
        lemma_balanced_builders(1 + i, 0, -1, Seq::empty(), Seq::empty());
        lemma_balanced_concat(add_code(1 + i, -1), digits_code(pow2(i as nat), 0));
        lemma_balanced_builders(
            1 + i,
            0,
            0,
            add_code(1 + i, -1) + digits_code(pow2(i as nat), 0),
            Seq::empty(),
        );
    }
    let carry = |j: int| carry_step(j);
    assert forall|j: int| 0 <= j < 9 implies balanced(#[trigger] carry(j)) by {
        lemma_balanced_carry_step(j);
    }
    let output = |j: int| output_step(j);
    assert forall|j: int| 1 <= j < 10 implies balanced(#[trigger] output(j)) by {
        lemma_balanced_output_step(j);
    }
    lemma_balanced_seq_up(0, 32, gather);
    lemma_balanced_seq_up(0, 9, carry);
    lemma_balanced_seq_down(1, 10, output);
    lemma_balanced_builders(34, 0, 0, Seq::empty(), Seq::empty());
    lemma_balanced_builders(33, 0, 48, Seq::empty(), Seq::empty());
    lemma_balanced_builders(33, 0, 0, Seq::empty(), Seq::empty());
    lemma_balanced_builders(-33, 0, 0, Seq::empty(), Seq::empty());
    lemma_balanced_builders(0, 0, -1, Seq::empty(), Seq::empty());
    lemma_balanced_4(set_code(34, 0), add_code(33, 48), put_code(33), set_code(33, 0));
    lemma_balanced_4(move_code(-33), sign_code(), seq_up(0, 32, gather), seq_up(0, 9, carry));
    lemma_balanced_3(
        move_code(-33) + sign_code() + seq_up(0, 32, gather) + seq_up(0, 9, carry),
        seq_down(1, 10, output),
        last_digit_code(),
    );
    lemma_balanced_3(
        move_code(-33) + sign_code() + seq_up(0, 32, gather) + seq_up(0, 9, carry) + seq_down(
            1,
            10,
            output,
        ) + last_digit_code(),
        add_code(0, -1),
        move_code(0),
    );
}

/// The routine of every instruction, and its leaf in the decision tree,
/// have matching brackets.
pub proof fn lemma_balanced_inst(inst: Inst)
    ensures
        balanced(routine_code(inst)),
        balanced(ip_to_sp_code()),
        balanced(sp_to_ip_code()),
        balanced(inst_code(inst)),
{
    match inst {
        Inst::I32Const(a) => lemma_balanced_arith(a),
        Inst::I32Print => lemma_balanced_print(),
        _ => lemma_balanced_arith(0),
    }
    lemma_balanced_stride(9);
    lemma_balanced_stride(33);
    lemma_balanced_stride(-9);
    lemma_balanced_stride(-33);
    lemma_balanced_concat(
        move_code(9) + seq![BfCmd::Open] + move_code(9) + seq![BfCmd::Close],
        move_code(33) + seq![BfCmd::Open] + move_code(33) + seq![BfCmd::Close],
    );
    assert(ip_to_sp_code() =~= (move_code(9) + seq![BfCmd::Open] + move_code(9)
        + seq![BfCmd::Close]) + (move_code(33) + seq![BfCmd::Open] + move_code(33)
        + seq![BfCmd::Close]));
    lemma_balanced_concat(
        move_code(-33) + seq![BfCmd::Open] + move_code(-33) + seq![BfCmd::Close],
        move_code(-9) + seq![BfCmd::Open] + move_code(-9) + seq![BfCmd::Close],
    );
    assert(sp_to_ip_code() =~= (move_code(-33) + seq![BfCmd::Open] + move_code(-33)
        + seq![BfCmd::Close]) + (move_code(-9) + seq![BfCmd::Open] + move_code(-9)
        + seq![BfCmd::Close]));
    lemma_balanced_3(ip_to_sp_code(), routine_code(inst), sp_to_ip_code());
}

/// A move followed by a loop of such moves has matching brackets.
proof fn lemma_balanced_stride(n: int)
    ensures
        balanced(move_code(n) + seq![BfCmd::Open] + move_code(n) + seq![BfCmd::Close]),
{
    lemma_balanced_builders(n, 0, 0, Seq::empty(), Seq::empty());
    lemma_balanced_loop(move_code(n));
    lemma_balanced_concat(move_code(n), seq![BfCmd::Open] + move_code(n) + seq![BfCmd::Close]);
    assert(move_code(n) + (seq![BfCmd::Open] + move_code(n) + seq![BfCmd::Close]) =~= move_code(n)
        + seq![BfCmd::Open] + move_code(n) + seq![BfCmd::Close]);
}

/// Every decision tree has matching brackets.
pub proof fn lemma_balanced_branch(i: int, bit: int, table: Seq<Inst>)
    ensures
        balanced(branch_code(i, bit, table)),
    decreases i + 1,
{
    if table.len() == 0 || i < -1 {
    } else if i < 0 {
        if 0 <= bit < table.len() {
            lemma_balanced_inst(table[bit]);
        }
    } else if table.len() <= bit + pow2(i as nat) {
        lemma_balanced_branch(i - 1, bit, table);
    } else {
        lemma_balanced_branch(i - 1, bit + pow2(i as nat), table);
        lemma_balanced_branch(i - 1, bit, table);
        lemma_balanced_builders(
            1 + i,
            0,
            0,
            branch_code(i - 1, bit + pow2(i as nat), table),
            branch_code(i - 1, bit, table),
        );
    }
}

/// The code of every compiled program has matching brackets, and so has the
/// buffer that holds it.
pub proof fn lemma_balanced_program(program: Seq<Inst>)
    ensures
        balanced(program_code(program)),
        balanced(emit_all(Seq::empty(), program_code(program))),
{
    let table = opcode_table(program);
    let block = |k: int| queue_block_code(opcode_of(program, program[k]));
    assert forall|k: int| 0 <= k < program.len() implies balanced(#[trigger] block(k)) by {
        let id = opcode_of(program, program[k]);
        let bits = |i: int|
            add_code(1 + i, crate::generator::arith::bit_of(id as u32, i as u32) as int);
        assert forall|i: int| 0 <= i < 8 implies balanced(#[trigger] bits(i)) by {
            lemma_balanced_builders(
                1 + i,
                0,
                crate::generator::arith::bit_of(id as u32, i as u32) as int,
                Seq::empty(),
                Seq::empty(),
            );
        }
        lemma_balanced_seq_up(0, 8, bits);
        lemma_balanced_builders(9, 0, 0, Seq::empty(), Seq::empty());
        lemma_balanced_concat(seq_up(0, 8, bits), move_code(9));
    }
    lemma_balanced_seq_down(0, program.len() as int, block);
    lemma_balanced_branch(7, 0, table);
    lemma_balanced_builders(0, 0, -1, Seq::empty(), Seq::empty());
    lemma_balanced_builders(0, 0, 1, Seq::empty(), Seq::empty());
    lemma_balanced_builders(-9, 0, 0, Seq::empty(), Seq::empty());
    lemma_balanced_builders(9, 0, 0, Seq::empty(), Seq::empty());
    lemma_balanced_4(add_code(0, -1), branch_code(7, 0, table), add_code(0, 1), move_code(-9));
    lemma_balanced_concat(
        add_code(0, -1) + branch_code(7, 0, table) + add_code(0, 1) + move_code(-9),
        add_code(0, 1),
    );
    lemma_balanced_builders(0, 0, 0, dispatch_code(table), Seq::empty());
    lemma_balanced_plain(seq![BfCmd::Dec]);
    lemma_balanced_plain(seq![BfCmd::Inc]);
    lemma_balanced_4(seq![BfCmd::Dec], move_code(9), queue_code(program), move_code(-9));
    lemma_balanced_3(
        seq![BfCmd::Dec] + move_code(9) + queue_code(program) + move_code(-9),
        seq![BfCmd::Inc],
        while_code(0, dispatch_code(table)),
    );
    let code = program_code(program);
    let s = crate::effect::fresh(Seq::empty());
    lemma_run_emit_all(Seq::empty(), code, Seq::empty(), s, 0);
    assert(Seq::<BfCmd>::empty() + code + Seq::<BfCmd>::empty() =~= code);
    assert(emit_all(Seq::empty(), code) + Seq::<BfCmd>::empty() =~= emit_all(Seq::empty(), code));
}

} // verus!
