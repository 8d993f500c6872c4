use bfgen::generator::{generate, Generator};
use bfgen::isa::Inst;
use bfgen::opcode::OpcodeTable;

fn constants(n: i32) -> Vec<Inst> {
    let mut program = Vec::new();
    for a in 0..n {
        program.push(Inst::I32Const(a));
    }
    program
}

#[test]
fn opcodes_follow_the_walk_from_the_end() {
    let program = vec![
        Inst::I32Const(1),
        Inst::I32Const(2),
        Inst::I32And,
        Inst::I32Const(1),
        Inst::I32Print,
    ];
    let table = OpcodeTable::assign(&program).unwrap();
    assert_eq!(table.len(), 4);
    assert_eq!(
        table.instructions(),
        &vec![Inst::I32Print, Inst::I32Const(1), Inst::I32And, Inst::I32Const(2)]
    );
    assert_eq!(table.opcode(Inst::I32Print), Some(0));
    assert_eq!(table.opcode(Inst::I32Const(1)), Some(1));
    assert_eq!(table.opcode(Inst::I32And), Some(2));
    assert_eq!(table.opcode(Inst::I32Const(2)), Some(3));
    assert_eq!(table.opcode(Inst::I32Not), None);
    assert_eq!(table.opcode(Inst::I32Const(3)), None);
}

#[test]
fn opcodes_are_unique_and_dense() {
    let program = vec![
        Inst::I32Inc,
        Inst::I32Const(7),
        Inst::I32Inc,
        Inst::I32Shl,
        Inst::I32Const(7),
        Inst::I32Const(-7),
        Inst::I32Inc,
    ];
    let table = OpcodeTable::assign(&program).unwrap();
    let mut seen = vec![false; table.len()];
    for inst in &program {
        let id = table.opcode(*inst).unwrap();
        assert!(id < table.len());
        assert_eq!(table.instructions()[id], *inst);
        seen[id] = true;
    }
    assert_eq!(seen, vec![true; 4]);
    for i in 0..program.len() {
        for j in 0..program.len() {
            assert_eq!(
                table.opcode(program[i]) == table.opcode(program[j]),
                program[i] == program[j]
            );
        }
    }
}

#[test]
fn empty_program_has_an_empty_table() {
    let table = OpcodeTable::assign(&Vec::new()).unwrap();
    assert_eq!(table.len(), 0);
    assert_eq!(table.opcode(Inst::I32Not), None);
}

#[test]
fn table_takes_256_distinct_instructions() {
    let program = constants(256);
    let table = OpcodeTable::assign(&program).unwrap();
    assert_eq!(table.len(), 256);
    assert_eq!(table.opcode(Inst::I32Const(255)), Some(0));
    assert_eq!(table.opcode(Inst::I32Const(0)), Some(255));
}

#[test]
fn table_refuses_257_distinct_instructions() {
    assert!(OpcodeTable::assign(&constants(257)).is_none());
}

#[test]
fn repeats_do_not_count_towards_the_limit() {
    let mut program = constants(256);
    program.extend(constants(256));
    program.extend(constants(100));
    assert_eq!(OpcodeTable::assign(&program).unwrap().len(), 256);
}

#[test]
fn compile_takes_256_distinct_instructions() {
    let mut gen = Generator::new();
    let result = gen.compile(constants(256));
    assert!(result.is_ok());
    assert_eq!(result.unwrap(), gen.build());
}

#[test]
fn compile_refuses_257_distinct_instructions() {
    let mut gen = Generator::new();
    gen.bf_put();
    let result = gen.compile(constants(257));
    assert_eq!(result, Err("too large set of instructions"));
    assert_eq!(gen.build(), ".");
}

#[test]
fn compile_of_nothing_is_the_bare_frame() {
    let mut gen = Generator::new();
    let text = gen.compile(Vec::new()).unwrap();
    assert_eq!(text, "[<<<<<<<<<+]");
}

#[test]
fn queue_holds_the_opcode_bits_last_instruction_first() {
    let mut gen = Generator::new();
    let text = gen
        .compile(vec![Inst::I32Const(1), Inst::I32Const(2), Inst::I32Const(3)])
        .unwrap();
    // opcodes: Const(3) is 0, Const(2) is 1, Const(1) is 2
    let queue = format!("-{}+{}+<<+[", ">".repeat(19), ">".repeat(10));
    assert!(text.starts_with(&queue));
}

#[test]
fn one_instruction_needs_no_test() {
    let mut gen = Generator::new();
    let text = gen.compile(vec![Inst::I32Not, Inst::I32Not]).unwrap();
    let mut leaf = Generator::new();
    leaf.inst_put(&Inst::I32Not);
    let mut body = Generator::new();
    body.sub(0, 1);
    body.extend(&leaf);
    body.add(0, 1);
    body.left(9);
    body.add(0, 1);
    let mut expected = Generator::new();
    expected.bf_dec();
    expected.right(27);
    expected.left(9);
    expected.bf_inc();
    expected.while_nonzero(0, &body);
    assert_eq!(text, expected.build());
}

#[test]
fn two_instructions_need_one_test() {
    let table = vec![Inst::I32Print, Inst::I32Inc];
    let mut tree = Generator::new();
    tree.inst_branch(7, 0, &table);
    let mut first = Generator::new();
    first.inst_put(&Inst::I32Print);
    let mut second = Generator::new();
    second.inst_put(&Inst::I32Inc);
    let mut expected = Generator::new();
    expected.if_else(1, 0, &second, &first);
    assert_eq!(tree.build(), expected.build());
}

#[test]
fn three_instructions_need_two_tests() {
    let table = vec![Inst::I32Print, Inst::I32Inc, Inst::I32Not];
    let mut tree = Generator::new();
    tree.inst_branch(7, 0, &table);
    let mut zero = Generator::new();
    zero.inst_put(&Inst::I32Print);
    let mut one = Generator::new();
    one.inst_put(&Inst::I32Inc);
    let mut two = Generator::new();
    two.inst_put(&Inst::I32Not);
    let mut low = Generator::new();
    low.if_else(1, 0, &one, &zero);
    // with bit 1 set only opcode 2 is left: bit 0 is not tested
    let mut expected = Generator::new();
    expected.if_else(2, 0, &two, &low);
    assert_eq!(tree.build(), expected.build());
}

#[test]
fn branch_without_bits_left_is_the_leaf() {
    let table = vec![Inst::I32Print, Inst::I32Inc];
    let mut tree = Generator::new();
    tree.inst_branch(-1, 1, &table);
    let mut leaf = Generator::new();
    leaf.inst_put(&Inst::I32Inc);
    assert_eq!(tree.build(), leaf.build());
    let mut tree = Generator::new();
    tree.inst_branch(-1, 2, &table);
    assert_eq!(tree.build(), "");
    let mut tree = Generator::new();
    tree.inst_branch(7, 0, &Vec::new());
    assert_eq!(tree.build(), "");
}

#[test]
fn leaf_goes_to_the_stack_and_back() {
    let mut gen = Generator::new();
    gen.ip_to_sp();
    assert_eq!(
        gen.build(),
        ">>>>>>>>>[>>>>>>>>>]>>>>>>>>>>>>>>>>>>>>>>>>>>>>>>>>>[>>>>>>>>>>>>>>>>>>>>>>>>>>>>>>>>>]"
    );
    let mut gen = Generator::new();
    gen.sp_to_ip();
    assert_eq!(
        gen.build(),
        "<<<<<<<<<<<<<<<<<<<<<<<<<<<<<<<<<[<<<<<<<<<<<<<<<<<<<<<<<<<<<<<<<<<]<<<<<<<<<[<<<<<<<<<]"
    );
    let mut leaf = Generator::new();
    leaf.inst_put(&Inst::I32Inc);
    let mut expected = Generator::new();
    expected.ip_to_sp();
    expected.i32_inc();
    expected.sp_to_ip();
    assert_eq!(leaf.build(), expected.build());
}

#[test]
fn generate_compiles_the_fixed_program() {
    let mut gen = Generator::new();
    let text = gen.compile(vec![Inst::I32Const(334), Inst::I32Print]).unwrap();
    assert_eq!(generate(), text);
    assert!(text.chars().all(|c| "+-><[],.".contains(c)));
}
