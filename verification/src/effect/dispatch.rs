//! What the decision tree and the two ways between the opcode queue and the
//! stack do when their code runs on the tape machine.
use crate::brackets::lemma_balanced_branch;
use crate::command::BfCmd;
use crate::effect::{lemma_runs_if_skipped, lemma_runs_if_taken, lemma_runs_move};
use crate::generator::arith::bit_of;
use crate::generator::dispatch::{branch_code, inst_code, ip_to_sp_code, sp_to_ip_code};
use crate::generator::move_code;
use crate::isa::Inst;
use crate::machine::{
    lemma_loop_skip, lemma_loop_turn, lemma_runs_balanced, lemma_runs_concat, runs, Machine,
};
use vstd::arithmetic::power2::{lemma2_to64, pow2};
use vstd::prelude::*;

verus! {

/// Whether a walk in strides of `k` cells, started on the cell under the
/// pointer, meets `j` cells that do not hold 0 and then one that does.
pub open spec fn strides(s: Machine, k: int, j: nat) -> bool
    decreases j,
{
    if j == 0 {
        s.cell() == 0
    } else {
        s.cell() != 0 && strides(s.moved(k), k, (j - 1) as nat)
    }
}

/// The loop of strides: while the cell under the pointer is not 0, the
/// pointer moves `k` cells on.
pub proof fn lemma_runs_strides(s: Machine, k: int, j: nat)
    requires
        strides(s, k, j),
    ensures
        runs(seq![BfCmd::Open] + move_code(k) + seq![BfCmd::Close], s, s.moved(j * k)),
    decreases j,
{
    lemma_runs_move(k, s);
    lemma_runs_balanced(move_code(k), s, s.moved(k));
    if j == 0 {
        lemma_loop_skip(move_code(k), s);
        assert(s.moved(0) =~= s);
    } else {
        lemma_runs_strides(s.moved(k), k, (j - 1) as nat);
        assert(k + (j - 1) * k == j * k) by (nonlinear_arith);
        assert(s.moved(k).moved((j - 1) * k) =~= s.moved(j * k));
        lemma_loop_turn(move_code(k), s, s.moved(k), s.moved(j * k));
    }
}

/// A first stride and the loop of strides: the pointer moves `k` cells on,
/// and on again while it finds a cell that is not 0.
pub proof fn lemma_runs_walk(s: Machine, k: int, j: nat)
    requires
        strides(s.moved(k), k, j),
    ensures
        runs(
            move_code(k) + seq![BfCmd::Open] + move_code(k) + seq![BfCmd::Close],
            s,
            s.moved((j + 1) * k),
        ),
{
    lemma_runs_move(k, s);
    lemma_runs_strides(s.moved(k), k, j);
    assert(k + j * k == (j + 1) * k) by (nonlinear_arith);
    assert(s.moved(k).moved(j * k) =~= s.moved((j + 1) * k));
    lemma_runs_concat(
        move_code(k),
        seq![BfCmd::Open] + move_code(k) + seq![BfCmd::Close],
        s,
        s.moved(k),
        s.moved((j + 1) * k),
    );
    assert(move_code(k) + (seq![BfCmd::Open] + move_code(k) + seq![BfCmd::Close]) =~= move_code(k)
        + seq![BfCmd::Open] + move_code(k) + seq![BfCmd::Close]);
}

/// The cell that a walk in strides of `k` cells meets after `i` strides.
pub open spec fn stride_cell(s: Machine, k: int, i: int) -> u8 {
    (s.tape)(s.ptr + i * k)
}

/// A walk over `j` cells that do not hold 0 to one that does is a walk of
/// `j` strides.
pub proof fn lemma_strides(s: Machine, k: int, j: nat)
    requires
        forall|i: int| 0 <= i < j ==> #[trigger] stride_cell(s, k, i) != 0,
        stride_cell(s, k, j as int) == 0,
    ensures
        strides(s, k, j),
    decreases j,
{
    assert(s.ptr + 0 * k == s.ptr) by (nonlinear_arith);
    if j == 0 {
        assert(stride_cell(s, k, 0) == s.cell());
    } else {
        assert(stride_cell(s, k, 0) != 0);
        let next = s.moved(k);
        assert forall|i: int| 0 <= i < j - 1 implies #[trigger] stride_cell(next, k, i) != 0 by {
            assert(s.ptr + k + i * k == s.ptr + (i + 1) * k) by (nonlinear_arith);
            assert(stride_cell(s, k, i + 1) != 0);
        }
        assert(s.ptr + k + (j - 1) * k == s.ptr + j * k) by (nonlinear_arith);
        lemma_strides(next, k, (j - 1) as nat);
    }
}

/// The opcode `id` with its bits from bit `i` down cleared.
pub open spec fn high_bits(id: u32, i: int) -> u32 {
    (id >> ((i + 1) as u32)) << ((i + 1) as u32)
}

/// How the bits of an opcode decide the way through the tree: with bit `i`
/// set the opcode is at least the higher bits and the weight of bit `i`,
/// else it is below that.
pub proof fn lemma_high_bits(id: u32, i: int)
    requires
        id < 256,
        -1 <= i <= 7,
    ensures
        high_bits(id, -1) == id,
        high_bits(id, 7) == 0,
        i >= 0 ==> pow2(i as nat) <= 128,
        i >= 0 && bit_of(id, i as u32) == 1 ==> high_bits(id, i - 1) == high_bits(id, i) + pow2(
            i as nat,
        ),
        i >= 0 && bit_of(id, i as u32) != 1 ==> high_bits(id, i - 1) == high_bits(id, i),
        i >= 0 && bit_of(id, i as u32) != 1 ==> id < high_bits(id, i) + pow2(i as nat),
        i >= 0 ==> bit_of(id, i as u32) <= 1,
        high_bits(id, i) <= id,
{
    lemma2_to64();
    assert(id < 256 ==> (id >> 0u32) << 0u32 == id && (id >> 8u32) << 8u32 == 0) by (bit_vector);
    let h = (i + 1) as u32;
    assert((id >> h) << h <= id) by (bit_vector)
        requires
            h <= 8,
    ;
    if i >= 0 {
        let k = i as u32;
        let w: u32 = 1u32 << k;
        assert(w == pow2(i as nat)) by {
            assert(k <= 7 ==> (k == 0 ==> 1u32 << k == 1) && (k == 1 ==> 1u32 << k == 2) && (k
                == 2 ==> 1u32 << k == 4) && (k == 3 ==> 1u32 << k == 8) && (k == 4 ==> 1u32 << k
                == 16) && (k == 5 ==> 1u32 << k == 32) && (k == 6 ==> 1u32 << k == 64) && (k == 7
                ==> 1u32 << k == 128)) by (bit_vector);
        }
        assert((id >> k) & 1 <= 1 && ((id >> k) & 1 == 1 ==> (id >> k) << k == ((id >> ((k
            + 1) as u32)) << ((k + 1) as u32)) + (1u32 << k)) && ((id >> k) & 1 != 1 ==> (id >> k)
            << k == (id >> ((k + 1) as u32)) << ((k + 1) as u32) && id < ((id >> ((k + 1) as u32))
            << ((k + 1) as u32)) + (1u32 << k))) by (bit_vector)
            requires
                k <= 7,
                id < 256,
        ;
        assert(high_bits(id, i - 1) == (id >> k) << k);
    }
}

/// The state `t` with 0 in the cells of the opcode bits from bit 0 up to bit
/// `i`: every conditional of the decision tree clears the bit that it has
/// tested.
pub open spec fn decoded(t: Machine, i: int) -> Machine {
    Machine {
        tape: |c: int|
            if t.ptr < c <= t.ptr + 1 + i {
                0u8
            } else {
                t.at(c)
            },
        ..t
    }
}

/// The decision tree is correct: with the bits of the opcode `id` in the
/// eight cells behind the pointer, and 0 under the pointer, the tree below
/// bit `i` does what the leaf of the instruction with that opcode does, if
/// the leaf leaves the pointer and these nine cells as they were, and
/// clears the cells of the bits from bit `i` down.
pub proof fn lemma_branch_selects(i: int, table: Seq<Inst>, id: u32, s: Machine, t: Machine)
    requires
        -1 <= i <= 7,
        id < table.len() <= 256,
        s.cell() == 0,
        forall|c: int|
            s.ptr < c <= s.ptr + 8 ==> #[trigger] (s.tape)(c) == bit_of(id, (c - s.ptr - 1) as u32),
        runs(inst_code(table[id as int]), s, t),
        t.ptr == s.ptr,
        forall|c: int| s.ptr <= c <= s.ptr + 8 ==> #[trigger] (t.tape)(c) == (s.tape)(c),
    ensures
        runs(branch_code(i, high_bits(id, i) as int, table), s, decoded(t, i)),
    decreases i + 1,
{
    let bit = high_bits(id, i) as int;
    let goal = decoded(t, i);
    lemma_high_bits(id, i);
    if i < 0 {
        assert(goal.tape =~= t.tape);
        assert(goal =~= t);
    } else {
        let flag = bit_of(id, i as u32);
        assert(s.slot(1 + i) == flag) by {
            assert((s.tape)(s.ptr + 1 + i) == bit_of(id, ((s.ptr + 1 + i) - s.ptr - 1) as u32));
        }
        assert((t.tape)(s.ptr + 1 + i) == (s.tape)(s.ptr + 1 + i));
        assert((t.tape)(s.ptr) == (s.tape)(s.ptr));
        lemma_branch_selects(i - 1, table, id, s, t);
        lemma_high_bits(id, i - 1);
        let inner = decoded(t, i - 1);
        if table.len() <= bit + pow2(i as nat) {
            assert(goal.tape =~= inner.tape);
            assert(goal =~= inner);
        } else {
            let cons = branch_code(i - 1, bit + pow2(i as nat), table);
            let alt = branch_code(i - 1, bit, table);
            lemma_balanced_branch(i - 1, bit + pow2(i as nat), table);
            lemma_balanced_branch(i - 1, bit, table);
            if flag == 1 {
                lemma_runs_if_taken(1 + i, 0, cons, alt, s, inner);
            } else {
                lemma_runs_if_skipped(1 + i, 0, cons, alt, s, inner);
            }
            assert(inner.with_cell(s.ptr + (1 + i), 0).tape =~= goal.tape);
            assert(inner.with_cell(s.ptr + (1 + i), 0) =~= goal);
        }
    }
}

/// Whether `code` is a walk in strides of `first` cells to a cell that
/// holds 0 and from there in strides of `second` cells to the next cell
/// that holds 0: a first stride is made in either case, and nothing but the
/// pointer changes.
pub open spec fn walks(code: Seq<BfCmd>, first: int, second: int) -> bool {
    forall|s: Machine, i: nat, j: nat|
        strides(s.moved(first), first, i) && strides(
            s.moved((i + 1) * first + second),
            second,
            j,
        ) ==> #[trigger] runs(code, s, s.moved((i + 1) * first + (j + 1) * second))
}

/// The way to the stack walks over the sentinels in strides of 9 and over
/// the heads in strides of 33, and the way back walks the other way.
pub proof fn lemma_ways_walk()
    ensures
        walks(ip_to_sp_code(), 9, 33),
        walks(sp_to_ip_code(), -33, -9),
{
    let near: int = 9;
    let far: int = 33;
    assert forall|s: Machine, i: nat, j: nat|
        strides(s.moved(near), near, i) && strides(s.moved((i + 1) * near + far), far, j)
        implies #[trigger] runs(ip_to_sp_code(), s, s.moved((i + 1) * near + (j + 1) * far)) by {
        lemma_two_walks(s, near, i, far, j);
        assert(ip_to_sp_code() =~= (move_code(9) + seq![BfCmd::Open] + move_code(9)
            + seq![BfCmd::Close]) + (move_code(33) + seq![BfCmd::Open] + move_code(33)
            + seq![BfCmd::Close]));
    }
    assert forall|s: Machine, i: nat, j: nat|
        strides(s.moved(-far), -far, i) && strides(s.moved((i + 1) * (-far) + (-near)), -near, j)
        implies #[trigger] runs(
        sp_to_ip_code(),
        s,
        s.moved((i + 1) * (-far) + (j + 1) * (-near)),
    ) by {
        lemma_two_walks(s, -far, i, -near, j);
        assert(sp_to_ip_code() =~= (move_code(-33) + seq![BfCmd::Open] + move_code(-33)
            + seq![BfCmd::Close]) + (move_code(-9) + seq![BfCmd::Open] + move_code(-9)
            + seq![BfCmd::Close]));
    }
}

/// Two walks, one after the other.
proof fn lemma_two_walks(s: Machine, first: int, i: nat, second: int, j: nat)
    requires
        strides(s.moved(first), first, i),
        strides(s.moved((i + 1) * first + second), second, j),
    ensures
        runs(
            (move_code(first) + seq![BfCmd::Open] + move_code(first) + seq![BfCmd::Close]) + (
            move_code(second) + seq![BfCmd::Open] + move_code(second) + seq![BfCmd::Close]),
            s,
            s.moved((i + 1) * first + (j + 1) * second),
        ),
{
    lemma_runs_walk(s, first, i);
    let mid = s.moved((i + 1) * first);
    assert(mid.moved(second) =~= s.moved((i + 1) * first + second));
    lemma_runs_walk(mid, second, j);
    assert(mid.moved((j + 1) * second) =~= s.moved((i + 1) * first + (j + 1) * second));
    lemma_runs_concat(
        move_code(first) + seq![BfCmd::Open] + move_code(first) + seq![BfCmd::Close],
        move_code(second) + seq![BfCmd::Open] + move_code(second) + seq![BfCmd::Close],
        s,
        mid,
        s.moved((i + 1) * first + (j + 1) * second),
    );
}

/// Whether `code` decodes the bits of an opcode from bit `i` down, given
/// that the higher bits are those of `bit`: with the bits of the opcode of
/// an instruction of `table` in the eight cells behind the pointer and 0
/// under it, `code` does what the leaf of that instruction does, if the
/// leaf leaves the pointer and these nine cells as they were, and clears
/// the cells of the bits from bit `i` down.
pub open spec fn decodes(code: Seq<BfCmd>, i: int, bit: int, table: Seq<Inst>) -> bool {
    forall|id: u32, s: Machine, t: Machine|
        id < table.len() && high_bits(id, i) == bit && s.cell() == 0 && (forall|c: int|
            s.ptr < c <= s.ptr + 8 ==> #[trigger] (s.tape)(c) == bit_of(id, (c - s.ptr - 1) as u32))
            && #[trigger] runs(inst_code(table[id as int]), s, t) && t.ptr == s.ptr && (forall|
            c: int,
        | s.ptr <= c <= s.ptr + 8 ==> #[trigger] (t.tape)(c) == (s.tape)(c)) ==> runs(
            code,
            s,
            decoded(t, i),
        )
}

/// Every decision tree decodes.
pub proof fn lemma_branch_decodes(i: int, bit: int, table: Seq<Inst>)
    requires
        -1 <= i <= 7,
        table.len() <= 256,
    ensures
        decodes(branch_code(i, bit, table), i, bit, table),
{
    assert forall|id: u32, s: Machine, t: Machine|
        id < table.len() && high_bits(id, i) == bit && s.cell() == 0 && (forall|c: int|
            s.ptr < c <= s.ptr + 8 ==> #[trigger] (s.tape)(c) == bit_of(id, (c - s.ptr - 1) as u32))
            && #[trigger] runs(inst_code(table[id as int]), s, t) && t.ptr == s.ptr && (forall|
            c: int,
        | s.ptr <= c <= s.ptr + 8 ==> #[trigger] (t.tape)(c) == (s.tape)(c)) implies runs(
        branch_code(i, bit, table),
        s,
        decoded(t, i),
    ) by {
        lemma_branch_selects(i, table, id, s, t);
    }
}

/// The decision tree is only as deep as the table asks for: if the table
/// holds no more than `2^k` instructions, the tree tests no bit from bit `k`
/// up, and is the tree below bit `k`.
pub proof fn lemma_branch_depth(i: int, k: int, table: Seq<Inst>)
    requires
        0 <= k <= i + 1 <= 8,
        table.len() <= pow2(k as nat),
    ensures
        branch_code(i, 0, table) == branch_code(k - 1, 0, table),
    decreases i - k + 1,
{
    if i >= k {
        if table.len() > 0 {
            vstd::arithmetic::power2::lemma_pow2_pos(i as nat);
            if k < i {
                vstd::arithmetic::power2::lemma_pow2_strictly_increases(k as nat, i as nat);
            }
        }
        lemma_branch_depth(i - 1, k, table);
    }
}

} // verus!
