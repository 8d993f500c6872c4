//! The dispatch compiler: the opcode queue and the decision tree that
//! decodes an opcode and runs the routine of its instruction.
use crate::command::{
    emit_all, lemma_emit_all_concat, lemma_emit_all_concat_all, lemma_parse_text, parse, text,
    BfCmd,
};
use crate::effect::dispatch::{
    decodes, lemma_branch_decodes, lemma_branch_depth, lemma_ways_walk, walks,
};
use crate::effect::program::{
    leaf_performs, lemma_leaf_is_performed, lemma_program_is_performed, performs, well_stacked,
};
use crate::generator::arith::{
    and_code, bit_of, const_code, inc_code, not_code, or_code, seq_down, seq_up, shl_code, xor_code,
};
use crate::generator::control::{if_code, lemma_if_block, lemma_while_block, while_code};
use crate::generator::print::print_code;
use crate::generator::{add_code, move_code, Generator};
use crate::isa::Inst;
use crate::opcode::{distinct_count, opcode_of, opcode_table, OPCODE_SPACE, OpcodeTable};
use vstd::arithmetic::power2::{lemma2_to64, pow2};
use vstd::prelude::*;

verus! {

/// The commands that lead from the current block of the opcode queue to the
/// stack pointer: over the sentinels of the blocks already run, which are
/// not zero, to the first cell that is, and from there over the heads of the
/// values on the stack to the first that is zero.
pub open spec fn ip_to_sp_code() -> Seq<BfCmd> {
    move_code(9) + seq![BfCmd::Open] + move_code(9) + seq![BfCmd::Close] + move_code(33)
        + seq![BfCmd::Open] + move_code(33) + seq![BfCmd::Close]
}

/// The commands that lead from the stack pointer back to the current block
/// of the opcode queue, the way of [`ip_to_sp_code`] in the other direction.
pub open spec fn sp_to_ip_code() -> Seq<BfCmd> {
    move_code(-33) + seq![BfCmd::Open] + move_code(-33) + seq![BfCmd::Close] + move_code(-9)
        + seq![BfCmd::Open] + move_code(-9) + seq![BfCmd::Close]
}

/// The arithmetic routine of an instruction.
pub open spec fn routine_code(inst: Inst) -> Seq<BfCmd> {
    match inst {
        Inst::I32Const(a) => const_code(a),
        Inst::I32Not => not_code(),
        Inst::I32And => and_code(),
        Inst::I32Or => or_code(),
        Inst::I32Xor => xor_code(),
        Inst::I32Shl => shl_code(),
        Inst::I32Inc => inc_code(),
        Inst::I32Print => print_code(),
    }
}

/// The leaf of the decision tree for `inst`: go to the stack, run the
/// routine, come back.
pub open spec fn inst_code(inst: Inst) -> Seq<BfCmd> {
    ip_to_sp_code() + routine_code(inst) + sp_to_ip_code()
}

/// The decision tree below opcode bit `i`, for the opcodes whose higher bits
/// are those of `bit`.
///
/// With no bit left to test, the tree is the leaf of the instruction whose
/// opcode is `bit`. A bit is not tested if no instruction of the table has
/// an opcode with the higher bits of `bit` and this bit set. Else the tree
/// is a conditional on the cell of bit `i`, with slot 0 as scratch.
pub open spec fn branch_code(i: int, bit: int, table: Seq<Inst>) -> Seq<BfCmd>
    decreases i + 1,
{
    if table.len() == 0 || i < -1 {
        Seq::empty()
    } else if i < 0 {
        if 0 <= bit < table.len() {
            inst_code(table[bit])
        } else {
            Seq::empty()
        }
    } else if table.len() <= bit + pow2(i as nat) {
        branch_code(i - 1, bit, table)
    } else {
        if_code(
            1 + i,
            0,
            branch_code(i - 1, bit + pow2(i as nat), table),
            branch_code(i - 1, bit, table),
        )
    }
}

/// One block of the opcode queue: the 8 bits of `id` added to the 8 cells
/// behind the sentinel, and the pointer moved on to the next block.
pub open spec fn queue_block_code(id: int) -> Seq<BfCmd> {
    seq_up(0, 8, |i: int| add_code(1 + i, bit_of(id as u32, i as u32) as int)) + move_code(9)
}

/// The opcode queue of a program: one block for each instruction, the last
/// instruction first.
pub open spec fn queue_code(program: Seq<Inst>) -> Seq<BfCmd> {
    seq_down(
        0,
        program.len() as int,
        |k: int| queue_block_code(opcode_of(program, program[k])),
    )
}

/// One turn of the dispatch loop: lower the sentinel of the current block,
/// run the decision tree on its 8 bits, raise the sentinel again, step to
/// the block before, and raise its sentinel.
pub open spec fn dispatch_code(table: Seq<Inst>) -> Seq<BfCmd> {
    add_code(0, -1) + branch_code(7, 0, table) + add_code(0, 1) + move_code(-9) + add_code(0, 1)
}

/// The whole generated program: cell 0 lowered to 255 as the end mark, the
/// opcode queue written from there to the right, the pointer put on the last
/// block with its sentinel raised, and the dispatch loop, which runs the
/// blocks from right to left until the end mark stops it.
pub open spec fn program_code(program: Seq<Inst>) -> Seq<BfCmd> {
    seq![BfCmd::Dec] + move_code(9) + queue_code(program) + move_code(-9) + seq![BfCmd::Inc]
        + while_code(0, dispatch_code(opcode_table(program)))
}

/// The weight of opcode bit `i`.
fn bit_weight(i: i32) -> (w: i32)
    requires
        0 <= i <= 7,
    ensures
        w == pow2(i as nat),
{
    proof {
        lemma2_to64();
    }
    let w: u32 = 1u32 << (i as u32);
    assert(w == pow2(i as nat)) by {
        let s: u32 = i as u32;
        assert(s <= 7 ==> (s == 0 ==> 1u32 << s == 1) && (s == 1 ==> 1u32 << s == 2) && (s == 2
            ==> 1u32 << s == 4) && (s == 3 ==> 1u32 << s == 8) && (s == 4 ==> 1u32 << s == 16) && (
        s == 5 ==> 1u32 << s == 32) && (s == 6 ==> 1u32 << s == 64) && (s == 7 ==> 1u32 << s
            == 128)) by (bit_vector);
    }
    w as i32
}

/// Bit `i` of the opcode `id`.
fn opcode_bit(id: usize, i: u32) -> (b: i32)
    requires
        id < OPCODE_SPACE,
        i < 8,
    ensures
        b == bit_of(id as u32, i),
        0 <= b <= 1,
{
    let b: u32 = ((id as u32) >> i) & 1;
    assert(b <= 1) by (bit_vector)
        requires
            b == ((id as u32) >> i) & 1,
    ;
    b as i32
}

impl Generator {
    /// Appends the way from the stack pointer back to the current block of
    /// the opcode queue.
    pub fn sp_to_ip(&mut self)
        requires
            old(self).wf(),
        ensures
            final(self).wf(),
            final(self)@ == emit_all(old(self)@, sp_to_ip_code()),
            walks(sp_to_ip_code(), -33, -9),
    {
        self.left(33);
        self.bf_open();
        self.left(33);
        self.bf_close();
        self.left(9);
        self.bf_open();
        self.left(9);
        self.bf_close();
        proof {
            lemma_emit_all_concat_all();
            lemma_ways_walk();
        }
    }

    /// Appends the way from the current block of the opcode queue to the
    /// stack pointer.
    pub fn ip_to_sp(&mut self)
        requires
            old(self).wf(),
        ensures
            final(self).wf(),
            final(self)@ == emit_all(old(self)@, ip_to_sp_code()),
            walks(ip_to_sp_code(), 9, 33),
    {
        self.right(9);
        self.bf_open();
        self.right(9);
        self.bf_close();
        self.right(33);
        self.bf_open();
        self.right(33);
        self.bf_close();
        proof {
            lemma_emit_all_concat_all();
            lemma_ways_walk();
        }
    }

    /// Appends the leaf of the decision tree for `inst`: the way to the
    /// stack, the routine of the instruction, and the way back.
    pub fn inst_put(&mut self, inst: &Inst)
        requires
            old(self).wf(),
        ensures
            final(self).wf(),
            final(self)@ == emit_all(old(self)@, inst_code(*inst)),
            leaf_performs(inst_code(*inst), *inst),
    {
        self.ip_to_sp();
        match *inst {
            Inst::I32Const(a) => self.i32_const(a),
            Inst::I32Not => self.i32_not(),
            Inst::I32And => self.i32_and(),
            Inst::I32Or => self.i32_or(),
            Inst::I32Xor => self.i32_xor(),
            Inst::I32Shl => self.i32_shl(),
            Inst::I32Inc => self.i32_inc(),
            Inst::I32Print => self.i32_print(),
        }
        self.sp_to_ip();
        proof {
            lemma_emit_all_concat_all();
            lemma_leaf_is_performed(*inst);
        }
    }

    /// Appends the decision tree below opcode bit `i` for the opcodes whose
    /// higher bits are those of `bit`; see [`branch_code`].
    ///
    /// `i` is the next bit to test, 7 at most, or -1 if none is left; `bit`
    /// holds the bits decided so far. The tree is only as deep as the
    /// number of instructions in `inst_vec` asks for: with no more than
    /// `2^k` of them, no bit from bit `k` up is tested.
    #[verifier::rlimit(50)]
    pub fn inst_branch(&mut self, i: i32, bit: i32, inst_vec: &Vec<Inst>)
        requires
            old(self).wf(),
            -1 <= i <= 7,
            0 <= bit < OPCODE_SPACE,
            inst_vec@.len() <= OPCODE_SPACE,
        ensures
            final(self).wf(),
            final(self)@ == emit_all(old(self)@, branch_code(i as int, bit as int, inst_vec@)),
            decodes(branch_code(i as int, bit as int, inst_vec@), i as int, bit as int, inst_vec@),
            forall|k: int|
                bit == 0 && 0 <= k <= i + 1 && inst_vec@.len() <= pow2(k as nat) ==> branch_code(
                    i as int,
                    0,
                    inst_vec@,
                ) == #[trigger] branch_code(k - 1, 0, inst_vec@),
        decreases i + 1,
    {
        proof {
            lemma2_to64();
            lemma_branch_decodes(i as int, bit as int, inst_vec@);
            assert forall|k: int|
                bit == 0 && 0 <= k <= i + 1 && inst_vec@.len() <= pow2(k as nat)
                implies branch_code(i as int, 0, inst_vec@) == #[trigger] branch_code(
                k - 1,
                0,
                inst_vec@,
            ) by {
                lemma_branch_depth(i as int, k, inst_vec@);
            }
        }
        let len: usize = inst_vec.len();
        if len == 0 {
        } else if i < 0 {
            if (bit as usize) < len {
                self.inst_put(&inst_vec[bit as usize]);
            }
        } else if len <= (bit + bit_weight(i)) as usize {
            self.inst_branch(i - 1, bit, inst_vec);
        } else {
            let mut cons = Generator::new();
            cons.inst_branch(i - 1, bit + bit_weight(i), inst_vec);
            let mut alt = Generator::new();
            alt.inst_branch(i - 1, bit, inst_vec);
            self.if_else(1 + i as isize, 0, &cons, &alt);
            proof {
                lemma_if_block(
                    old(self)@,
                    1 + i,
                    0,
                    branch_code(i - 1, bit + pow2(i as nat), inst_vec@),
                    branch_code(i - 1, bit as int, inst_vec@),
                );
            }
        }
    }

    /// Appends one block of the opcode queue for the opcode `id`.
    fn queue_block(&mut self, id: usize)
        requires
            old(self).wf(),
            id < OPCODE_SPACE,
        ensures
            final(self).wf(),
            final(self)@ == emit_all(old(self)@, queue_block_code(id as int)),
    {
        let mut i: u32 = 0;
        while i < 8
            invariant
                i <= 8,
                id < OPCODE_SPACE,
                self.wf(),
                self@ == emit_all(
                    old(self)@,
                    seq_up(
                        0,
                        i as int,
                        |i: int| add_code(1 + i, bit_of(id as u32, i as u32) as int),
                    ),
                ),
            decreases 8 - i,
        {
            self.add(1 + i as isize, opcode_bit(id, i));
            i += 1;
            proof {
                lemma_emit_all_concat_all();
            }
        }
        self.right(9);
        proof {
            lemma_emit_all_concat_all();
        }
    }

    /// Compiles `program`: appends the opcode queue and the dispatch loop,
    /// and renders the buffer.
    ///
    /// Fails, and appends nothing, if the program has more than 256 distinct
    /// instructions. The code of a program in which every instruction finds
    /// its operands on the stack performs the program when it runs on an
    /// empty tape, and so does the text that is returned if the buffer was
    /// empty.
    #[verifier::rlimit(50)]
    pub fn compile(&mut self, program: Vec<Inst>) -> (result: Result<String, &'static str>)
        requires
            old(self).wf(),
        ensures
            final(self).wf(),
            result is Ok <==> distinct_count(program@) <= OPCODE_SPACE,
            result matches Ok(rendered) ==> final(self)@ == emit_all(
                old(self)@,
                program_code(program@),
            ) && rendered@ == text(final(self)@),
            result is Ok && well_stacked(program@) ==> performs(program_code(program@), program@),
            result matches Ok(rendered) ==> (well_stacked(program@) && old(self)@.len() == 0
                ==> performs(parse(rendered@), program@)),
            result matches Err(reason) ==> final(self)@ == old(self)@ && reason@
                == "too large set of instructions"@,
    {
        let table = match OpcodeTable::assign(&program) {
            Some(table) => table,
            None => {
                return Err("too large set of instructions");
            },
        };
        self.bf_dec();
        self.right(9);
        let ghost queue_start = self@;
        let mut k: usize = program.len();
        while k > 0
            invariant
                k <= program.len(),
                self.wf(),
                table.wf(),
                table@ == opcode_table(program@),
                self@ == emit_all(
                    queue_start,
                    seq_down(
                        k as int,
                        program.len() as int,
                        |k: int| queue_block_code(opcode_of(program@, program@[k])),
                    ),
                ),
            decreases k,
        {
            k -= 1;
            let ghost done = seq_down(
                k + 1,
                program.len() as int,
                |k: int| queue_block_code(opcode_of(program@, program@[k])),
            );
            proof {
                crate::opcode::lemma_opcodes_unique_and_dense(program@);
                crate::opcode::lemma_opcode_table(program@);
                assert(program@.contains(program@[k as int]));
            }
            let id: usize = match table.opcode(program[k]) {
                Some(id) => id,
                None => 0,
            };
            assert(id == opcode_of(program@, program@[k as int]));
            self.queue_block(id);
            proof {
                lemma_emit_all_concat(queue_start, done, queue_block_code(id as int));
            }
        }
        self.left(9);
        self.bf_inc();
        let mut body = Generator::new();
        body.sub(0, 1);
        body.inst_branch(7, 0, table.instructions());
        body.add(0, 1);
        body.left(9);
        body.add(0, 1);
        let ghost before = self@;
        self.while_nonzero(0, &body);
        proof {
            lemma_while_block(before, 0, dispatch_code(opcode_table(program@)));
            lemma_emit_all_concat_all();
            if well_stacked(program@) {
                lemma_program_is_performed(program@);
                lemma_parse_text(self@);
                if old(self)@.len() == 0 {
                    assert(old(self)@ =~= Seq::<BfCmd>::empty());
                }
            }
        }
        Ok(self.build())
    }
}

} // verus!
