//! What a compiled program does when it runs on the tape machine: it
//! performs the instructions of the source program, one after the other, on
//! a stack of 32-bit values that lies on the tape behind the opcode queue.

use crate::command::{emit_all, BfCmd};
use crate::effect::arith::{binary_result, holds, lemma_bits, lemma_not_complements, with_value};
use crate::effect::dispatch::{
    decoded, lemma_branch_selects, lemma_high_bits, lemma_runs_walk, lemma_strides, stride_cell,
};
use crate::effect::bitwise::{lemma_and_conjoins, lemma_or_disjoins, lemma_xor_differs};
use crate::effect::decimal::{decimal, is_negative, signed_decimal};
use crate::effect::increment::{lemma_const_loads, lemma_inc_increments};
use crate::effect::print::{lemma_print_prints, printed, scratch_clear};
use crate::effect::shift::{lemma_shl_shifts, shifted_left};
use crate::effect::{
    fresh, lemma_loop_code_skip, lemma_runs_add, lemma_runs_move, lemma_while_from_loop, loop_code,
};
use crate::generator::arith::{bit_of, seq_down, seq_up};
use crate::generator::control::while_code;
use crate::generator::dispatch::{
    branch_code, dispatch_code, inst_code, ip_to_sp_code, program_code, queue_block_code,
    queue_code, routine_code, sp_to_ip_code,
};
use crate::generator::{add_code, demo_program, move_code};
use crate::isa::Inst;
use crate::machine::{
    lemma_loop_turn, lemma_peephole_sound, lemma_runs_balanced, lemma_runs_concat, lemma_runs_empty,
    lemma_runs_one, runs, step, Machine,
};
use crate::opcode::{
    distinct_count, lemma_opcode_table, lemma_opcodes_unique_and_dense, opcode_of, opcode_table,
};
use vstd::prelude::*;

verus! {

/// What a program has done so far: the values on its stack, the bottom one
/// first, and the text that it has written.
pub struct Outcome {
    /// The stack, the bottom value first.
    pub stack: Seq<u32>,
    /// The bytes written so far.
    pub output: Seq<u8>,
}

/// Whether `inst` finds its operands on `stack`.
pub open spec fn admits(inst: Inst, stack: Seq<u32>) -> bool {
    match inst {
        Inst::I32Const(_) => true,
        Inst::I32Not => stack.len() >= 1,
        Inst::I32Inc => stack.len() >= 1,
        Inst::I32Print => stack.len() >= 1,
        Inst::I32And => stack.len() >= 2,
        Inst::I32Or => stack.len() >= 2,
        Inst::I32Xor => stack.len() >= 2,
        Inst::I32Shl => stack.len() >= 2,
    }
}

/// The stack after `inst`.
pub open spec fn stack_after(inst: Inst, stack: Seq<u32>) -> Seq<u32> {
    let n = stack.len() as int;
    match inst {
        Inst::I32Const(a) => stack.push(a as u32),
        Inst::I32Not => stack.update(n - 1, !stack[n - 1]),
        Inst::I32Inc => stack.update(n - 1, (stack[n - 1] + 1) as u32),
        Inst::I32Print => stack.take(n - 1),
        Inst::I32And => stack.take(n - 2).push(stack[n - 2] & stack[n - 1]),
        Inst::I32Or => stack.take(n - 2).push(stack[n - 2] | stack[n - 1]),
        Inst::I32Xor => stack.take(n - 2).push(stack[n - 2] ^ stack[n - 1]),
        Inst::I32Shl => stack.take(n - 2).push(shifted_left(stack[n - 2], stack[n - 1])),
    }
}

/// What `inst` writes.
pub open spec fn text_of(inst: Inst, stack: Seq<u32>) -> Seq<u8> {
    match inst {
        Inst::I32Print => signed_decimal(stack[stack.len() - 1]),
        _ => Seq::empty(),
    }
}

/// What has been done after `inst`.
pub open spec fn perform(inst: Inst, before: Outcome) -> Outcome {
    Outcome {
        stack: stack_after(inst, before.stack),
        output: before.output + text_of(inst, before.stack),
    }
}

/// What `program` has done after its first `k` instructions.
pub open spec fn outcome(program: Seq<Inst>, k: nat) -> Outcome
    decreases k,
{
    if k == 0 {
        Outcome { stack: Seq::empty(), output: Seq::empty() }
    } else {
        perform(program[k - 1], outcome(program, (k - 1) as nat))
    }
}

/// Whether every instruction of `program` finds its operands on the stack
/// that the instructions before it have left.
pub open spec fn well_stacked(program: Seq<Inst>) -> bool {
    forall|k: nat|
        k < program.len() ==> admits(program[k as int], #[trigger] outcome(program, k).stack)
}

/// What cell `c` holds on a tape whose stack lies behind cell `base`: every
/// value takes 33 cells, its head and its 32 bits, the first value 33 cells
/// behind `base`; every other cell holds 0.
pub open spec fn stack_cell(base: int, stack: Seq<u32>, c: int) -> u8 {
    if c < base + 33 || c >= base + 33 * (stack.len() + 1) {
        0
    } else if (c - base) % 33 == 0 {
        1
    } else {
        bit_of(stack[(c - base) / 33 - 1], ((c - base) % 33 - 1) as u32) as u8
    }
}

/// Whether the tape of `s` from cell `base` on holds `stack` and nothing
/// else.
pub open spec fn stacked(s: Machine, base: int, stack: Seq<u32>) -> bool {
    forall|c: int| c >= base ==> #[trigger] (s.tape)(c) == stack_cell(base, stack, c)
}

/// The state `s` with `stack` on its tape from cell `base` on.
pub open spec fn restacked(s: Machine, base: int, stack: Seq<u32>) -> Machine {
    Machine {
        tape: |c: int|
            if c >= base {
                stack_cell(base, stack, c)
            } else {
                s.at(c)
            },
        ..s
    }
}

/// The stack pointer: the first cell behind the values of `stack`.
pub open spec fn stack_pointer(base: int, stack: Seq<u32>) -> int {
    base + 33 * (stack.len() + 1)
}

/// A tape that holds a stack holds each of its values.
pub proof fn lemma_stacked_holds(s: Machine, base: int, stack: Seq<u32>, v: int)
    requires
        stacked(s, base, stack),
        0 <= v < stack.len(),
    ensures
        holds(s, base + 33 * (v + 1), stack[v]),
{
    let head = base + 33 * (v + 1);
    assert((s.tape)(head) == stack_cell(base, stack, head));
    lemma_bits(stack[v]);
    assert forall|c: int| head < c <= head + 32 implies #[trigger] (s.tape)(c) == bit_of(
        stack[v],
        (c - head - 1) as u32,
    ) by {
        assert((s.tape)(c) == stack_cell(base, stack, c));
        assert((c - base) / 33 - 1 == v);
        assert((c - base) % 33 == c - head);
        assert(bit_of(stack[v], (c - head - 1) as u32) <= 1);
    }
}

/// The routine of each instruction is correct on the stack: started on the
/// stack pointer of a tape that holds a stack on which the instruction
/// finds its operands, it leaves the stack that the instruction describes
/// and the pointer on the new stack pointer, has written what the
/// instruction writes, and has changed nothing before the stack.
#[verifier::rlimit(50)]
pub proof fn lemma_routine_performs(inst: Inst, s: Machine, base: int, before: Outcome)
    requires
        stacked(s, base, before.stack),
        s.ptr == stack_pointer(base, before.stack),
        s.output == before.output,
        admits(inst, before.stack),
    ensures
        runs(
            routine_code(inst),
            s,
            Machine {
                ptr: stack_pointer(base, perform(inst, before).stack),
                output: perform(inst, before).output,
                ..restacked(s, base, perform(inst, before).stack)
            },
        ),
{
    let stack = before.stack;
    let n = stack.len() as int;
    let sp = s.ptr;
    let after = perform(inst, before);
    let goal = Machine {
        ptr: stack_pointer(base, after.stack),
        output: after.output,
        ..restacked(s, base, after.stack)
    };
    assert((s.tape)(sp) == stack_cell(base, stack, sp));
    if n >= 1 {
        lemma_stacked_holds(s, base, stack, n - 1);
    }
    if n >= 2 {
        lemma_stacked_holds(s, base, stack, n - 2);
    }
    match inst {
        Inst::I32Const(a) => {
            assert forall|c: int| sp <= c <= sp + 32 implies #[trigger] (s.tape)(c) == 0 by {
                assert((s.tape)(c) == stack_cell(base, stack, c));
            }
            lemma_const_loads(s, a);
            let end = with_value(s, sp, a as u32).moved(33);
            lemma_bits(a as u32);
            assert forall|c: int| #[trigger] (end.tape)(c) == (goal.tape)(c) by {
                if c >= base {
                    assert((s.tape)(c) == stack_cell(base, stack, c));
                    if sp <= c <= sp + 32 {
                        assert((c - base) / 33 - 1 == n);
                        assert((c - base) % 33 == c - sp);
                    } else if c < sp {
                        if c >= base + 33 {
                            assert((c - base) / 33 - 1 < n);
                        }
                    }
                }
            }
            assert(end.tape =~= goal.tape);
            assert(end.output =~= goal.output);
            assert(end =~= goal);
        },
        Inst::I32Not => {
            let x = stack[n - 1];
            lemma_not_complements(s, x);
            let end = with_value(s, sp - 33, !x);
            lemma_bits(!x);
            lemma_restack_top(s, base, stack, !x, end);
            assert(end.output =~= goal.output);
            assert(end =~= goal);
        },
        Inst::I32Inc => {
            let x = stack[n - 1];
            lemma_inc_increments(s, x);
            let y = (x + 1) as u32;
            let end = with_value(s, sp - 33, y);
            lemma_bits(y);
            lemma_restack_top(s, base, stack, y, end);
            assert(end.output =~= goal.output);
            assert(end =~= goal);
        },
        Inst::I32Print => {
            let x = stack[n - 1];
            assert forall|c: int| sp <= c <= sp + 29 implies #[trigger] (s.tape)(c) == 0 by {
                assert((s.tape)(c) == stack_cell(base, stack, c));
            }
            assert(scratch_clear(s, sp - 33));
            lemma_print_prints(s, x);
            let end = printed(s, x);
            assert forall|c: int| #[trigger] (end.tape)(c) == (goal.tape)(c) by {
                if c >= base {
                    assert((s.tape)(c) == stack_cell(base, stack, c));
                    if c >= base + 33 && c < sp - 33 {
                        assert((c - base) / 33 - 1 < n - 1);
                    }
                }
            }
            assert(end.tape =~= goal.tape);
            assert(end.output =~= goal.output);
            assert(end =~= goal);
        },
        Inst::I32And => {
            lemma_and_conjoins(s, stack[n - 2], stack[n - 1]);
            lemma_restack_binary(s, base, stack, stack[n - 2] & stack[n - 1]);
            assert(binary_result(s, stack[n - 2] & stack[n - 1]).output =~= goal.output);
            assert(binary_result(s, stack[n - 2] & stack[n - 1]) =~= goal);
        },
        Inst::I32Or => {
            lemma_or_disjoins(s, stack[n - 2], stack[n - 1]);
            lemma_restack_binary(s, base, stack, stack[n - 2] | stack[n - 1]);
            assert(binary_result(s, stack[n - 2] | stack[n - 1]).output =~= goal.output);
            assert(binary_result(s, stack[n - 2] | stack[n - 1]) =~= goal);
        },
        Inst::I32Xor => {
            lemma_xor_differs(s, stack[n - 2], stack[n - 1]);
            lemma_restack_binary(s, base, stack, stack[n - 2] ^ stack[n - 1]);
            assert(binary_result(s, stack[n - 2] ^ stack[n - 1]).output =~= goal.output);
            assert(binary_result(s, stack[n - 2] ^ stack[n - 1]) =~= goal);
        },
        Inst::I32Shl => {
            lemma_shl_shifts(s, stack[n - 2], stack[n - 1]);
            let r = shifted_left(stack[n - 2], stack[n - 1]);
            lemma_restack_binary(s, base, stack, r);
            assert(binary_result(s, r).output =~= goal.output);
            assert(binary_result(s, r) =~= goal);
        },
    }
}

/// A tape whose top value has been replaced holds the stack with its top
/// value replaced.
proof fn lemma_restack_top(s: Machine, base: int, stack: Seq<u32>, y: u32, end: Machine)
    requires
        stacked(s, base, stack),
        stack.len() >= 1,
        s.ptr == stack_pointer(base, stack),
        end == with_value(s, s.ptr - 33, y),
    ensures
        end.tape == restacked(s, base, stack.update(stack.len() - 1, y)).tape,
{
    let n = stack.len() as int;
    let sp = s.ptr;
    let goal = restacked(s, base, stack.update(n - 1, y));
    lemma_bits(y);
    assert forall|c: int| #[trigger] (end.tape)(c) == (goal.tape)(c) by {
        if c >= base {
            assert((s.tape)(c) == stack_cell(base, stack, c));
            if sp - 33 <= c < sp {
                assert((c - base) / 33 - 1 == n - 1);
                assert((c - base) % 33 == c - (sp - 33));
            } else if c >= base + 33 && c < sp - 33 {
                assert((c - base) / 33 - 1 < n - 1);
            }
        }
    }
    assert(end.tape =~= goal.tape);
}

/// A tape whose two top values have been replaced by one holds the stack
/// with its two top values replaced by that one.
proof fn lemma_restack_binary(s: Machine, base: int, stack: Seq<u32>, r: u32)
    requires
        stacked(s, base, stack),
        stack.len() >= 2,
        s.ptr == stack_pointer(base, stack),
    ensures
        binary_result(s, r).tape == restacked(s, base, stack.take(stack.len() - 2).push(r)).tape,
        binary_result(s, r).ptr == stack_pointer(base, stack.take(stack.len() - 2).push(r)),
{
    let n = stack.len() as int;
    let sp = s.ptr;
    let end = binary_result(s, r);
    let goal = restacked(s, base, stack.take(n - 2).push(r));
    lemma_bits(r);
    assert forall|c: int| #[trigger] (end.tape)(c) == (goal.tape)(c) by {
        if c >= base {
            assert((s.tape)(c) == stack_cell(base, stack, c));
            if sp - 66 <= c < sp - 33 {
                assert((c - base) / 33 - 1 == n - 2);
                assert((c - base) % 33 == c - (sp - 66));
            } else if c >= base + 33 && c < sp - 66 {
                assert((c - base) / 33 - 1 < n - 2);
            }
        }
    }
    assert(end.tape =~= goal.tape);
}

/// What cell `c` of the opcode queue holds when `done` instructions of
/// `program` have run. The queue lies in blocks of 9 cells from cell 9 on,
/// the block of the last instruction first. The first cell of a block is its
/// sentinel, which holds 1 from the time its turn comes; the other 8 hold
/// the bits of the opcode until the instruction has run, and 0 after that.
/// Cell 0 holds the end mark 255 until the last instruction has run.
pub open spec fn queue_cell(program: Seq<Inst>, done: int, c: int) -> u8 {
    if c % 9 == 0 {
        if c == 0 {
            if done == program.len() {
                0
            } else {
                255
            }
        } else if c / 9 >= program.len() - done {
            1
        } else {
            0
        }
    } else if c < 9 || c / 9 > program.len() - done {
        0
    } else {
        bit_of(
            opcode_of(program, program[program.len() - c / 9]) as u32,
            (c % 9 - 1) as u32,
        ) as u8
    }
}

/// The first cell behind the opcode queue of a program with `n`
/// instructions. The stack lies behind it.
pub open spec fn stack_base(n: nat) -> int {
    9 * (n as int + 1)
}

/// The state of the machine between two instructions, when the first `done`
/// instructions of `program` have run with the outcome `so_far`: the opcode
/// queue, the stack behind it, the pointer on the block of the next
/// instruction, or on cell 0 after the last.
pub open spec fn layout(program: Seq<Inst>, done: int, so_far: Outcome, input: Seq<u8>) -> Machine {
    Machine {
        tape: |c: int|
            if c < 0 {
                0u8
            } else if c < stack_base(program.len()) {
                queue_cell(program, done, c)
            } else {
                stack_cell(stack_base(program.len()), so_far.stack, c)
            },
        ptr: 9 * (program.len() - done),
        input,
        output: so_far.output,
    }
}

/// The leaf of an instruction is correct: started on the block of the
/// instruction, with the sentinel lowered, it performs the instruction on
/// the stack and comes back, and has changed nothing in the opcode queue.
#[verifier::rlimit(50)]
proof fn lemma_leaf_performs(program: Seq<Inst>, done: int, so_far: Outcome, input: Seq<u8>)
    requires
        0 <= done < program.len(),
        admits(program[done], so_far.stack),
    ensures
        runs(
            inst_code(program[done]),
            layout(program, done, so_far, input).added(0, -1),
            layout(program, done, perform(program[done], so_far), input).added(0, -1),
        ),
{
    let n = program.len() as int;
    let inst = program[done];
    let base = stack_base(n as nat);
    let block = 9 * (n - done);
    let depth = so_far.stack.len() as int;
    let after = perform(inst, so_far);
    let start = layout(program, done, so_far, input).added(0, -1);
    let goal = layout(program, done, after, input).added(0, -1);
    // over the sentinels of the blocks that have run to the cell behind the queue
    assert forall|i: int| 0 <= i < done implies #[trigger] stride_cell(start.moved(9), 9, i)
        != 0 by {
        let c = block + 9 + i * 9;
        assert(c % 9 == 0 && c / 9 == n - done + 1 + i);
    }
    assert(stride_cell(start.moved(9), 9, done) == 0);
    lemma_strides(start.moved(9), 9, done as nat);
    lemma_runs_walk(start, 9, done as nat);
    let behind = start.moved((done + 1) * 9);
    assert(behind.ptr == base);
    // over the heads of the values to the stack pointer
    assert forall|i: int| 0 <= i < depth implies #[trigger] stride_cell(behind.moved(33), 33, i)
        != 0 by {
        let c = base + 33 + i * 33;
        assert((c - base) % 33 == 0);
    }
    assert(stride_cell(behind.moved(33), 33, depth) == 0);
    lemma_strides(behind.moved(33), 33, depth as nat);
    lemma_runs_walk(behind, 33, depth as nat);
    let there = behind.moved((depth + 1) * 33);
    assert(there.ptr == stack_pointer(base, so_far.stack));
    // the routine
    lemma_routine_performs(inst, there, base, so_far);
    let end = stack_pointer(base, after.stack);
    let performed = Machine {
        ptr: end,
        output: after.output,
        ..restacked(there, base, after.stack)
    };
    // back over the heads of the values
    let height = after.stack.len() as int;
    assert forall|i: int| 0 <= i < height implies #[trigger] stride_cell(
        performed.moved(-33),
        -33,
        i,
    ) != 0 by {
        let c = end - 33 + i * (-33);
        assert((c - base) % 33 == 0);
        assert(base + 33 <= c < base + 33 * (after.stack.len() + 1));
    }
    assert(stride_cell(performed.moved(-33), -33, height) == 0);
    lemma_strides(performed.moved(-33), -33, height as nat);
    lemma_runs_walk(performed, -33, height as nat);
    let below = performed.moved((height + 1) * (-33));
    assert(below.ptr == base);
    // back over the sentinels to the block whose sentinel is lowered
    assert forall|i: int| 0 <= i < done implies #[trigger] stride_cell(below.moved(-9), -9, i)
        != 0 by {
        let c = base - 9 + i * (-9);
        assert(c % 9 == 0 && c / 9 == n - i);
    }
    assert(stride_cell(below.moved(-9), -9, done) == 0);
    lemma_strides(below.moved(-9), -9, done as nat);
    lemma_runs_walk(below, -9, done as nat);
    let back = below.moved((done + 1) * (-9));
    let to_stack = move_code(9) + seq![BfCmd::Open] + move_code(9) + seq![BfCmd::Close];
    let to_top = move_code(33) + seq![BfCmd::Open] + move_code(33) + seq![BfCmd::Close];
    let to_base = move_code(-33) + seq![BfCmd::Open] + move_code(-33) + seq![BfCmd::Close];
    let to_queue = move_code(-9) + seq![BfCmd::Open] + move_code(-9) + seq![BfCmd::Close];
    lemma_runs_concat(to_stack, to_top, start, behind, there);
    assert(to_stack + to_top =~= ip_to_sp_code());
    lemma_runs_concat(to_base, to_queue, performed, below, back);
    assert(to_base + to_queue =~= sp_to_ip_code());
    lemma_runs_concat(ip_to_sp_code(), routine_code(inst), start, there, performed);
    lemma_runs_concat(
        ip_to_sp_code() + routine_code(inst),
        sp_to_ip_code(),
        start,
        performed,
        back,
    );
    assert(back.tape =~= goal.tape);
    assert(back =~= goal);
}

/// One turn of the dispatch loop performs the next instruction and steps to
/// the block of the one after it.
#[verifier::rlimit(50)]
proof fn lemma_dispatch_turn(program: Seq<Inst>, done: int, so_far: Outcome, input: Seq<u8>)
    requires
        0 <= done < program.len(),
        distinct_count(program) <= 256,
        admits(program[done], so_far.stack),
    ensures
        runs(
            dispatch_code(opcode_table(program)),
            layout(program, done, so_far, input),
            layout(program, done + 1, perform(program[done], so_far), input),
        ),
{
    let n = program.len() as int;
    let inst = program[done];
    let table = opcode_table(program);
    let id = opcode_of(program, inst);
    let block = 9 * (n - done);
    let start = layout(program, done, so_far, input);
    let after = perform(inst, so_far);
    let lowered = start.added(0, -1);
    let performed = layout(program, done, after, input).added(0, -1);
    lemma_opcodes_unique_and_dense(program);
    lemma_opcode_table(program);
    lemma_runs_add(0, -1, start);
    lemma_leaf_performs(program, done, so_far, input);
    assert(table[id] == inst);
    lemma_high_bits(id as u32, 7);
    assert forall|c: int| lowered.ptr < c <= lowered.ptr + 8 implies #[trigger] (lowered.tape)(c)
        == bit_of(id as u32, (c - lowered.ptr - 1) as u32) by {
        assert(c % 9 == c - block && c / 9 == n - done);
        lemma_bits(id as u32);
    }
    lemma_branch_selects(7, table, id as u32, lowered, performed);
    let decided = decoded(performed, 7);
    let raised = decided.added(0, 1);
    lemma_runs_add(0, 1, decided);
    let stepped = raised.moved(-9);
    lemma_runs_move(-9, raised);
    let end = stepped.added(0, 1);
    lemma_runs_add(0, 1, stepped);
    lemma_runs_concat(add_code(0, -1), branch_code(7, 0, table), start, lowered, decided);
    lemma_runs_concat(
        add_code(0, -1) + branch_code(7, 0, table),
        add_code(0, 1),
        start,
        decided,
        raised,
    );
    lemma_runs_concat(
        add_code(0, -1) + branch_code(7, 0, table) + add_code(0, 1),
        move_code(-9),
        start,
        raised,
        stepped,
    );
    lemma_runs_concat(
        add_code(0, -1) + branch_code(7, 0, table) + add_code(0, 1) + move_code(-9),
        add_code(0, 1),
        start,
        stepped,
        end,
    );
    let goal = layout(program, done + 1, after, input);
    assert forall|c: int| #[trigger] (end.tape)(c) == (goal.tape)(c) by {
        if 0 <= c < stack_base(n as nat) {
            if c == block {
                assert(c % 9 == 0 && c / 9 == n - done);
            } else if c == block - 9 {
                assert(c % 9 == 0 && c / 9 == n - done - 1);
            } else if block < c <= block + 8 {
                assert(c % 9 == c - block && c / 9 == n - done);
            }
        }
    }
    assert(end.tape =~= goal.tape);
    assert(end =~= goal);
}

/// The dispatch loop performs the instructions that are left, one after the
/// other, and ends on cell 0.
proof fn lemma_dispatch_loop(program: Seq<Inst>, done: int, input: Seq<u8>)
    requires
        0 <= done <= program.len(),
        distinct_count(program) <= 256,
        well_stacked(program),
    ensures
        runs(
            loop_code(0, dispatch_code(opcode_table(program))),
            layout(program, done, outcome(program, done as nat), input),
            layout(program, program.len() as int, outcome(program, program.len()), input),
        ),
    decreases program.len() - done,
{
    let n = program.len();
    let body = dispatch_code(opcode_table(program));
    let start = layout(program, done, outcome(program, done as nat), input);
    let goal = layout(program, n as int, outcome(program, n), input);
    if done == n {
        // the loop has matching brackets whether or not it runs
        crate::brackets::lemma_balanced_program(program);
        lemma_balanced_dispatch(program);
        lemma_loop_code_skip(0, body, start);
        assert(start.moved(0) =~= start);
    } else {
        let so_far = outcome(program, done as nat);
        assert(admits(program[done], so_far.stack));
        lemma_dispatch_turn(program, done, so_far, input);
        let next = layout(program, done + 1, outcome(program, (done + 1) as nat), input);
        lemma_dispatch_loop(program, done + 1, input);
        lemma_runs_move(0, start);
        lemma_runs_move(0, next);
        assert(start.moved(0) =~= start);
        assert(next.moved(0) =~= next);
        lemma_runs_concat(move_code(0), body, start, start, next);
        lemma_runs_concat(move_code(0) + body, move_code(0), start, next, next);
        lemma_loop_turn(move_code(0) + body + move_code(0), start, next, goal);
    }
}

/// The body of the dispatch loop has matching brackets.
proof fn lemma_balanced_dispatch(program: Seq<Inst>)
    ensures
        crate::machine::balanced(dispatch_code(opcode_table(program))),
{
    let table = opcode_table(program);
    let s = fresh(Seq::empty());
    crate::brackets::lemma_balanced_branch(7, 0, table);
    lemma_runs_add(0, -1, s);
    lemma_runs_balanced(add_code(0, -1), s, s.added(0, -1));
    lemma_runs_add(0, 1, s);
    lemma_runs_balanced(add_code(0, 1), s, s.added(0, 1));
    lemma_runs_move(-9, s);
    lemma_runs_balanced(move_code(-9), s, s.moved(-9));
    crate::machine::lemma_balanced_concat(add_code(0, -1), branch_code(7, 0, table));
    crate::machine::lemma_balanced_concat(
        add_code(0, -1) + branch_code(7, 0, table),
        add_code(0, 1),
    );
    crate::machine::lemma_balanced_concat(
        add_code(0, -1) + branch_code(7, 0, table) + add_code(0, 1),
        move_code(-9),
    );
    crate::machine::lemma_balanced_concat(
        add_code(0, -1) + branch_code(7, 0, table) + add_code(0, 1) + move_code(-9),
        add_code(0, 1),
    );
}

/// The tape while a block of the opcode queue is written, when the bits of
/// the opcode `id` below bit `i` are written.
pub open spec fn block_written(s: Machine, id: int, i: int) -> Machine {
    Machine {
        tape: |c: int|
            if s.ptr < c <= s.ptr + i {
                bit_of(id as u32, (c - s.ptr - 1) as u32) as u8
            } else {
                s.at(c)
            },
        ..s
    }
}

/// Writing the bits of an opcode from bit 0 up to bit `i - 1`.
proof fn lemma_queue_bits(s: Machine, id: int, i: int)
    requires
        0 <= i <= 8,
        forall|c: int| s.ptr < c <= s.ptr + 8 ==> #[trigger] (s.tape)(c) == 0,
    ensures
        runs(
            seq_up(0, i, |i: int| add_code(1 + i, bit_of(id as u32, i as u32) as int)),
            s,
            block_written(s, id, i),
        ),
    decreases i,
{
    let goal = block_written(s, id, i);
    lemma_bits(id as u32);
    if i == 0 {
        lemma_runs_empty(s);
        assert(goal.tape =~= s.tape);
        assert(goal =~= s);
    } else {
        let k = i - 1;
        lemma_queue_bits(s, id, k);
        let before = block_written(s, id, k);
        lemma_runs_add(1 + k, bit_of(id as u32, k as u32) as int, before);
        let end = before.added(1 + k, bit_of(id as u32, k as u32) as int);
        lemma_runs_concat(
            seq_up(0, k, |i: int| add_code(1 + i, bit_of(id as u32, i as u32) as int)),
            add_code(1 + k, bit_of(id as u32, k as u32) as int),
            s,
            before,
            end,
        );
        assert((s.tape)(s.ptr + 1 + k) == 0);
        assert(bit_of(id as u32, k as u32) <= 1);
        assert(end.tape =~= goal.tape);
        assert(end =~= goal);
    }
}

/// The tape while the opcode queue is written, when the blocks of the
/// instructions from the last down to `from` are written: the end mark in
/// cell 0, the bits of the opcodes in their blocks, and the pointer on the
/// next block.
pub open spec fn queue_written(program: Seq<Inst>, from: int, input: Seq<u8>) -> Machine {
    Machine {
        tape: |c: int|
            if c == 0 {
                255u8
            } else if 9 <= c < 9 * (program.len() - from + 1) && c % 9 != 0 {
                bit_of(
                    opcode_of(program, program[program.len() - c / 9]) as u32,
                    (c % 9 - 1) as u32,
                ) as u8
            } else {
                0u8
            },
        ptr: 9 * (program.len() - from + 1),
        input,
        output: Seq::empty(),
    }
}

/// Writing the blocks of the instructions from the last down to `from`.
proof fn lemma_queue(program: Seq<Inst>, from: int, input: Seq<u8>)
    requires
        0 <= from <= program.len(),
    ensures
        runs(
            seq_down(
                from,
                program.len() as int,
                |k: int| queue_block_code(opcode_of(program, program[k])),
            ),
            queue_written(program, program.len() as int, input),
            queue_written(program, from, input),
        ),
    decreases program.len() - from,
{
    let n = program.len() as int;
    let start = queue_written(program, n, input);
    let goal = queue_written(program, from, input);
    if from == n {
        lemma_runs_empty(start);
    } else {
        lemma_queue(program, from + 1, input);
        let before = queue_written(program, from + 1, input);
        let id = opcode_of(program, program[from]);
        lemma_queue_bits(before, id, 8);
        let written = block_written(before, id, 8);
        lemma_runs_move(9, written);
        let end = written.moved(9);
        lemma_runs_concat(
            seq_up(0, 8, |i: int| add_code(1 + i, bit_of(id as u32, i as u32) as int)),
            move_code(9),
            before,
            written,
            end,
        );
        lemma_runs_concat(
            seq_down(from + 1, n, |k: int| queue_block_code(opcode_of(program, program[k]))),
            queue_block_code(id),
            start,
            before,
            end,
        );
        lemma_bits(id as u32);
        assert forall|c: int| #[trigger] (end.tape)(c) == (goal.tape)(c) by {
            if before.ptr < c <= before.ptr + 8 {
                assert(c / 9 == n - from && c % 9 == c - before.ptr);
            } else if 9 <= c < before.ptr {
                assert(c / 9 < n - from);
            }
        }
        assert(end.tape =~= goal.tape);
        assert(end =~= goal);
    }
}

/// A compiled program is correct: started on an empty tape, the code of a
/// program that has no more than 256 distinct instructions, each of which
/// finds its operands on the stack, performs the instructions in their
/// order. It ends with the pointer on cell 0, the stack of the outcome
/// behind the opcode queue, and the text of the outcome written.
pub proof fn lemma_program_performs(program: Seq<Inst>, input: Seq<u8>)
    requires
        distinct_count(program) <= 256,
        well_stacked(program),
    ensures
        runs(
            program_code(program),
            fresh(input),
            layout(program, program.len() as int, outcome(program, program.len()), input),
        ),
        runs(
            emit_all(Seq::empty(), program_code(program)),
            fresh(input),
            layout(program, program.len() as int, outcome(program, program.len()), input),
        ),
{
    let n = program.len() as int;
    let start = fresh(input);
    let table = opcode_table(program);
    let goal = layout(program, n, outcome(program, n as nat), input);
    // the end mark and the queue
    let marked = step(start, BfCmd::Dec);
    lemma_runs_one(BfCmd::Dec, start);
    let first = marked.moved(9);
    lemma_runs_move(9, marked);
    assert(first.tape =~= queue_written(program, n, input).tape);
    assert(first =~= queue_written(program, n, input));
    lemma_queue(program, 0, input);
    let queued = queue_written(program, 0, input);
    let last = queued.moved(-9);
    lemma_runs_move(-9, queued);
    let raised = step(last, BfCmd::Inc);
    lemma_runs_one(BfCmd::Inc, last);
    let ready = layout(program, 0, outcome(program, 0), input);
    assert forall|c: int| #[trigger] (raised.tape)(c) == (ready.tape)(c) by {
        if c == 9 * n {
            assert(c % 9 == 0 && c / 9 == n);
        }
    }
    assert(raised.tape =~= ready.tape);
    assert(raised =~= ready);
    // the dispatch loop
    lemma_dispatch_loop(program, 0, input);
    assert(ready.moved(0) =~= ready);
    assert(goal.moved(0) =~= goal);
    lemma_while_from_loop(0, dispatch_code(table), ready, goal);
    lemma_runs_concat(seq![BfCmd::Dec], move_code(9), start, marked, first);
    lemma_runs_concat(seq![BfCmd::Dec] + move_code(9), queue_code(program), start, first, queued);
    lemma_runs_concat(
        seq![BfCmd::Dec] + move_code(9) + queue_code(program),
        move_code(-9),
        start,
        queued,
        last,
    );
    lemma_runs_concat(
        seq![BfCmd::Dec] + move_code(9) + queue_code(program) + move_code(-9),
        seq![BfCmd::Inc],
        start,
        last,
        ready,
    );
    lemma_runs_concat(
        seq![BfCmd::Dec] + move_code(9) + queue_code(program) + move_code(-9) + seq![BfCmd::Inc],
        while_code(0, dispatch_code(table)),
        start,
        ready,
        goal,
    );
    lemma_peephole_sound(program_code(program), start, goal);
}

/// The program that loads the constant 334 and writes it, compiled and
/// run on an empty tape, writes the three bytes `334` and leaves an empty
/// stack.
pub proof fn lemma_demo_writes_334()
    ensures
        yields(
            emit_all(Seq::empty(), program_code(demo_program())),
            demo_program(),
            Outcome { stack: Seq::empty(), output: seq![51u8, 51u8, 52u8] },
        ),
{
    let program = demo_program();
    lemma_opcode_table(program);
    let loaded = outcome(program, 1);
    let written = outcome(program, 2);
    reveal_with_fuel(outcome, 3);
    assert(loaded.stack =~= seq![334u32]);
    assert(!is_negative(334)) by (bit_vector);
    assert(decimal(334) =~= seq![51u8, 51u8, 52u8]) by {
        reveal_with_fuel(decimal, 3);
    }
    assert(written.stack =~= Seq::<u32>::empty());
    assert(written.output =~= seq![51u8, 51u8, 52u8]);
    assert forall|k: nat| k < program.len() implies admits(
        program[k as int],
        #[trigger] outcome(program, k).stack,
    ) by {
        assert(k == 0 || k == 1);
    }
    lemma_program_is_performed(program);
    assert(written == (Outcome { stack: Seq::empty(), output: seq![51u8, 51u8, 52u8] }));
}

/// Whether `code`, started on an empty tape with any input, always ends
/// with the pointer on cell 0, the opcode queue of `program` run through,
/// the stack of `result` behind it, and the text of `result` written.
pub open spec fn yields(code: Seq<BfCmd>, program: Seq<Inst>, result: Outcome) -> bool {
    forall|input: Seq<u8>| #[trigger]
        runs(code, fresh(input), layout(program, program.len() as int, result, input))
}

/// Whether `code`, started on an empty tape with any input, always performs
/// the instructions of `program` in their order.
pub open spec fn performs(code: Seq<BfCmd>, program: Seq<Inst>) -> bool {
    yields(code, program, outcome(program, program.len()))
}

/// Whether `code` is the leaf of `inst`: started on the block of `inst` in
/// the opcode queue of any program, with the sentinel lowered, it performs
/// `inst` on the stack and comes back, and changes nothing in the queue.
pub open spec fn leaf_performs(code: Seq<BfCmd>, inst: Inst) -> bool {
    forall|program: Seq<Inst>, done: int, so_far: Outcome, input: Seq<u8>|
        0 <= done < program.len() && program[done] == inst && admits(inst, so_far.stack)
            ==> #[trigger] runs(
            code,
            layout(program, done, so_far, input).added(0, -1),
            layout(program, done, perform(inst, so_far), input).added(0, -1),
        )
}

/// The leaf of every instruction performs it.
pub proof fn lemma_leaf_is_performed(inst: Inst)
    ensures
        leaf_performs(inst_code(inst), inst),
{
    assert forall|program: Seq<Inst>, done: int, so_far: Outcome, input: Seq<u8>|
        0 <= done < program.len() && program[done] == inst && admits(
            inst,
            so_far.stack,
        ) implies #[trigger] runs(
        inst_code(inst),
        layout(program, done, so_far, input).added(0, -1),
        layout(program, done, perform(inst, so_far), input).added(0, -1),
    ) by {
        lemma_leaf_performs(program, done, so_far, input);
    }
}

/// The code of a program performs the program, and so does the buffer that
/// holds it.
pub proof fn lemma_program_is_performed(program: Seq<Inst>)
    requires
        distinct_count(program) <= 256,
        well_stacked(program),
    ensures
        performs(program_code(program), program),
        performs(emit_all(Seq::empty(), program_code(program)), program),
{
    assert forall|input: Seq<u8>| #[trigger]
        runs(
            program_code(program),
            fresh(input),
            layout(program, program.len() as int, outcome(program, program.len()), input),
        ) by {
        lemma_program_performs(program, input);
    }
    assert forall|input: Seq<u8>| #[trigger]
        runs(
            emit_all(Seq::empty(), program_code(program)),
            fresh(input),
            layout(program, program.len() as int, outcome(program, program.len()), input),
        ) by {
        lemma_program_performs(program, input);
    }
}

} // verus!
