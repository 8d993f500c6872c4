//! The opcode table: which 8-bit number stands for which instruction of a
//! program.
use crate::isa::Inst;
use vstd::prelude::*;
use vstd::seq_lib::seq_to_set_is_finite;
use vstd::set_lib::lemma_len_subset;

verus! {

/// The most instructions that a table can hold: one for every 8-bit number.
pub const OPCODE_SPACE: usize = 256;

/// The distinct instructions of `program`, in the order in which a walk from
/// its last instruction to its first meets them. The opcode of an
/// instruction is its index in this sequence.
pub open spec fn opcode_table(program: Seq<Inst>) -> Seq<Inst>
    decreases program.len(),
{
    if program.len() == 0 {
        Seq::empty()
    } else {
        let later = opcode_table(program.drop_first());
        if later.contains(program[0]) {
            later
        } else {
            later.push(program[0])
        }
    }
}

/// The number of distinct instructions in `program`.
pub open spec fn distinct_count(program: Seq<Inst>) -> nat {
    program.to_set().len()
}

/// The opcode that `program` gives to `inst`, for an instruction that occurs
/// in it.
pub open spec fn opcode_of(program: Seq<Inst>, inst: Inst) -> int {
    opcode_table(program).index_of(inst)
}

/// The opcode table holds every instruction of the program once, and nothing
/// else.
pub proof fn lemma_opcode_table(program: Seq<Inst>)
    ensures
        opcode_table(program).no_duplicates(),
        forall|inst: Inst|
            #[trigger] opcode_table(program).contains(inst) <==> program.contains(inst),
        opcode_table(program).len() == distinct_count(program),
        opcode_table(program).len() <= program.len(),
    decreases program.len(),
{
    let table = opcode_table(program);
    if program.len() > 0 {
        let rest = program.drop_first();
        let later = opcode_table(rest);
        lemma_opcode_table(rest);
        assert forall|inst: Inst| #[trigger] table.contains(inst) <==> program.contains(inst) by {
            if table.contains(inst) {
                let i = choose|i: int| 0 <= i < table.len() && table[i] == inst;
                if i < later.len() {
                    assert(later.contains(inst));
                    let j = choose|j: int| 0 <= j < rest.len() && rest[j] == inst;
                    assert(program[j + 1] == inst);
                } else {
                    assert(program[0] == inst);
                }
            }
            if program.contains(inst) {
                let j = choose|j: int| 0 <= j < program.len() && program[j] == inst;
                if j > 0 {
                    assert(rest[j - 1] == inst);
                    assert(later.contains(inst));
                    let i = choose|i: int| 0 <= i < later.len() && later[i] == inst;
                    assert(table[i] == inst);
                } else if later.contains(inst) {
                } else {
                    assert(table[later.len() as int] == inst);
                }
            }
        }
    }
    assert(table.to_set() =~= program.to_set());
    table.unique_seq_to_set();
}

/// Every instruction of a program has exactly one opcode, and the opcodes
/// are the numbers from 0 up to, and without, the number of distinct
/// instructions: equal instructions share an opcode, different ones never
/// do, and every number in that range is the opcode of an instruction of the
/// program.
pub proof fn lemma_opcodes_unique_and_dense(program: Seq<Inst>)
    ensures
        forall|k: int|
            0 <= k < program.len() ==> 0 <= #[trigger] opcode_of(program, program[k])
                < distinct_count(program),
        forall|k: int|
            0 <= k < program.len() ==> opcode_table(program)[#[trigger] opcode_of(
                program,
                program[k],
            )] == program[k],
        forall|j: int, k: int|
            0 <= j < program.len() && 0 <= k < program.len() ==> (#[trigger] opcode_of(
                program,
                program[j],
            ) == #[trigger] opcode_of(program, program[k]) <==> program[j] == program[k]),
        forall|id: int|
            0 <= id < distinct_count(program) ==> program.contains(
                #[trigger] opcode_table(program)[id],
            ) && opcode_of(program, opcode_table(program)[id]) == id,
{
    let table = opcode_table(program);
    lemma_opcode_table(program);
    assert forall|k: int| 0 <= k < program.len() implies 0 <= #[trigger] opcode_of(
        program,
        program[k],
    ) < distinct_count(program) && table[opcode_of(program, program[k])] == program[k] by {
        assert(program.contains(program[k]));
        assert(table.contains(program[k]));
    }
    assert forall|id: int| 0 <= id < distinct_count(program) implies program.contains(
        #[trigger] table[id],
    ) && opcode_of(program, table[id]) == id by {
        assert(table.contains(table[id]));
    }
}

/// The opcode table of the later part of a program is no longer than that of
/// the whole.
pub proof fn lemma_opcode_table_grows(program: Seq<Inst>, k: int)
    requires
        0 <= k <= program.len(),
    ensures
        opcode_table(program.skip(k)).len() <= distinct_count(program),
{
    let part = program.skip(k);
    lemma_opcode_table(part);
    assert forall|inst: Inst| part.to_set().contains(inst) implies program.to_set().contains(
        inst,
    ) by {
        let j = choose|j: int| 0 <= j < part.len() && part[j] == inst;
        assert(program[j + k] == inst);
    }
    seq_to_set_is_finite(program);
    lemma_len_subset(part.to_set(), program.to_set());
}

/// An opcode table: distinct instructions, at most 256 of them, each with
/// its index as opcode. The table is kept in the order of the opcodes and
/// searched from the front, so that the opcode of an instruction is the
/// place where it is found.
pub struct OpcodeTable {
    insts: Vec<Inst>,
}

impl View for OpcodeTable {
    type V = Seq<Inst>;

    closed spec fn view(&self) -> Seq<Inst> {
        self.insts@
    }
}

impl OpcodeTable {
    /// The table's invariant: no instruction occurs twice, and every index
    /// fits in 8 bits.
    pub open spec fn wf(&self) -> bool {
        &&& self@.no_duplicates()
        &&& self@.len() <= OPCODE_SPACE
    }

    /// Gives each distinct instruction of `program` the next unused opcode,
    /// walking from the last instruction to the first. There is no table if
    /// the program has more than 256 distinct instructions.
    pub fn assign(program: &Vec<Inst>) -> (result: Option<OpcodeTable>)
        ensures
            result is Some <==> distinct_count(program@) <= OPCODE_SPACE,
            result matches Some(table) ==> table.wf() && table@ == opcode_table(program@),
    {
        let mut table = OpcodeTable { insts: Vec::new() };
        let mut k: usize = program.len();
        assert(program@.skip(k as int) =~= Seq::<Inst>::empty());
        while k > 0
            invariant
                k <= program.len(),
                table@ == opcode_table(program@.skip(k as int)),
                table@.len() <= OPCODE_SPACE,
            decreases k,
        {
            k -= 1;
            let inst: Inst = program[k];
            proof {
                assert(program@.skip(k as int).drop_first() =~= program@.skip(k + 1));
                lemma_opcode_table_grows(program@, k as int);
            }
            if table.opcode(inst).is_none() {
                if table.insts.len() >= OPCODE_SPACE {
                    return None;
                }
                table.insts.push(inst);
            }
        }
        proof {
            assert(program@.skip(0) =~= program@);
            lemma_opcode_table(program@);
        }
        Some(table)
    }

    /// The number of instructions in the table.
    pub fn len(&self) -> (n: usize)
        ensures
            n == self@.len(),
    {
        self.insts.len()
    }

    /// The instructions of the table, each at the index that is its opcode.
    pub fn instructions(&self) -> (insts: &Vec<Inst>)
        ensures
            insts@ == self@,
    {
        &self.insts
    }

    /// The opcode of `inst`: the index at which the table holds it, if it
    /// does.
    pub fn opcode(&self, inst: Inst) -> (result: Option<usize>)
        ensures
            result is Some <==> self@.contains(inst),
            result matches Some(id) ==> id < self@.len() && self@[id as int] == inst,
            result matches Some(id) ==> forall|j: int| 0 <= j < id ==> self@[j] != inst,
    {
        let mut i: usize = 0;
        while i < self.insts.len()
            invariant
                i <= self.insts.len(),
                forall|j: int| 0 <= j < i ==> self.insts@[j] != inst,
            decreases self.insts.len() - i,
        {
            if self.insts[i] == inst {
                return Some(i);
            }
            i += 1;
        }
        None
    }
}

} // verus!
