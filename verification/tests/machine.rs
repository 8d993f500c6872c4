use bfgen::generator::{generate, Generator};
use bfgen::isa::Inst;

/// A tape machine: wrapping byte cells, a tape that grows to the right, and
/// the pointer on cell 0 at the start.
struct Run {
    tape: Vec<u8>,
    pointer: usize,
    output: Vec<u8>,
}

fn run_text(text: &str, input: &[u8]) -> Run {
    let code: Vec<char> = text.chars().collect();
    let mut partner = vec![0usize; code.len()];
    let mut open = Vec::new();
    for (i, c) in code.iter().enumerate() {
        if *c == '[' {
            open.push(i);
        } else if *c == ']' {
            let j = open.pop().expect("a closing bracket without an opening one");
            partner[i] = j;
            partner[j] = i;
        }
    }
    assert!(open.is_empty(), "an opening bracket without a closing one");
    let mut run = Run { tape: vec![0], pointer: 0, output: Vec::new() };
    let mut next_input = 0;
    let mut pc = 0;
    let mut steps: u64 = 0;
    while pc < code.len() {
        steps += 1;
        assert!(steps < 400_000_000, "the program does not stop");
        match code[pc] {
            '+' => run.tape[run.pointer] = run.tape[run.pointer].wrapping_add(1),
            '-' => run.tape[run.pointer] = run.tape[run.pointer].wrapping_sub(1),
            '>' => {
                run.pointer += 1;
                if run.pointer == run.tape.len() {
                    run.tape.push(0);
                }
            }
            '<' => {
                assert!(run.pointer > 0, "the pointer leaves the tape on the left");
                run.pointer -= 1;
            }
            '[' => {
                if run.tape[run.pointer] == 0 {
                    pc = partner[pc];
                }
            }
            ']' => {
                if run.tape[run.pointer] != 0 {
                    pc = partner[pc];
                }
            }
            ',' => {
                run.tape[run.pointer] =
                    if next_input < input.len() { input[next_input] } else { 0 };
                next_input += 1;
            }
            '.' => run.output.push(run.tape[run.pointer]),
            _ => {}
        }
        pc += 1;
    }
    run
}

fn compile(program: &[Inst]) -> String {
    let mut gen = Generator::new();
    gen.compile(program.to_vec()).unwrap()
}

fn printed(program: &[Inst]) -> String {
    let run = run_text(&compile(program), &[]);
    String::from_utf8(run.output).unwrap()
}

/// The values on the stack after `program` has run, bottom first. The stack
/// starts 33 cells behind the cell that ends the opcode queue; every cell
/// that belongs to no value must be back at 0.
fn stack_after(program: &[Inst]) -> Vec<i32> {
    let run = run_text(&compile(program), &[]);
    let base = 9 * (program.len() + 1) + 33;
    let cell = |i: usize| if i < run.tape.len() { run.tape[i] } else { 0 };
    let mut values = Vec::new();
    let mut head = base;
    while cell(head) != 0 {
        assert_eq!(cell(head), 1);
        let mut value: u32 = 0;
        for i in 0..32 {
            let bit = cell(head + 1 + i);
            assert!(bit <= 1);
            value |= (bit as u32) << i;
        }
        values.push(value as i32);
        head += 33;
    }
    for i in head..run.tape.len() {
        assert_eq!(run.tape[i], 0, "cell {} behind the stack", i);
    }
    for i in 9 * (program.len() + 1)..base {
        assert_eq!(cell(i), 0, "cell {} before the stack", i);
    }
    values
}

const SAMPLES: [i32; 12] = [
    0,
    1,
    -1,
    2,
    334,
    -334,
    0x5555_5555,
    -0x5555_5556,
    0x1234_5678,
    -0x1234_5678,
    i32::MAX,
    i32::MIN,
];

/// A fixed sequence of 32-bit values that looks random.
fn scattered(count: usize) -> Vec<i32> {
    let mut values = Vec::new();
    let mut state: u64 = 0x2545_f491_4f6c_dd1d;
    for _ in 0..count {
        state = state.wrapping_mul(6364136223846793005).wrapping_add(1442695040888963407);
        values.push((state >> 32) as u32 as i32);
    }
    values
}

#[test]
fn machine_runs_a_hand_written_program() {
    let run = run_text("++[->+++<]>.", &[]);
    assert_eq!(run.output, vec![6]);
    assert_eq!(run.pointer, 1);
    let run = run_text(",+.", &[41]);
    assert_eq!(run.output, vec![42]);
    let run = run_text("-.", &[]);
    assert_eq!(run.output, vec![255]);
}

#[test]
fn generated_program_prints_334() {
    let run = run_text(&generate(), &[]);
    assert_eq!(run.output, b"334".to_vec());
}

#[test]
fn print_writes_zero_as_one_digit() {
    assert_eq!(printed(&[Inst::I32Const(0), Inst::I32Print]), "0");
}

#[test]
fn print_writes_no_leading_zeros() {
    assert_eq!(printed(&[Inst::I32Const(7), Inst::I32Print]), "7");
    assert_eq!(printed(&[Inst::I32Const(10), Inst::I32Print]), "10");
    assert_eq!(printed(&[Inst::I32Const(1005), Inst::I32Print]), "1005");
    assert_eq!(printed(&[Inst::I32Const(1000000000), Inst::I32Print]), "1000000000");
}

#[test]
fn print_writes_a_minus_sign_for_a_set_top_bit() {
    assert_eq!(printed(&[Inst::I32Const(-1), Inst::I32Print]), "-1");
    assert_eq!(printed(&[Inst::I32Const(-334), Inst::I32Print]), "-334");
    assert_eq!(printed(&[Inst::I32Const(-1000), Inst::I32Print]), "-1000");
}

#[test]
fn print_writes_the_extreme_values() {
    assert_eq!(printed(&[Inst::I32Const(i32::MAX), Inst::I32Print]), "2147483647");
    assert_eq!(printed(&[Inst::I32Const(i32::MIN), Inst::I32Print]), "-2147483648");
}

#[test]
fn print_agrees_with_decimal_formatting() {
    for x in SAMPLES {
        assert_eq!(printed(&[Inst::I32Const(x), Inst::I32Print]), format!("{}", x));
    }
}

#[test]
fn print_consumes_its_value() {
    assert_eq!(stack_after(&[Inst::I32Const(334), Inst::I32Print]), Vec::<i32>::new());
    assert_eq!(stack_after(&[Inst::I32Const(5), Inst::I32Const(-77), Inst::I32Print]), vec![5]);
}

#[test]
fn instructions_run_in_program_order() {
    let program = [
        Inst::I32Const(12),
        Inst::I32Print,
        Inst::I32Const(7),
        Inst::I32Print,
        Inst::I32Const(12),
        Inst::I32Print,
    ];
    assert_eq!(printed(&program), "12712");
}

#[test]
fn empty_program_does_nothing() {
    let run = run_text(&compile(&[]), &[]);
    assert!(run.output.is_empty());
    assert_eq!(run.pointer, 0);
    assert_eq!(stack_after(&[]), Vec::<i32>::new());
}

#[test]
fn constant_load_pushes_its_value() {
    for x in SAMPLES {
        assert_eq!(stack_after(&[Inst::I32Const(x)]), vec![x]);
    }
    assert_eq!(
        stack_after(&[Inst::I32Const(1), Inst::I32Const(2), Inst::I32Const(3)]),
        vec![1, 2, 3]
    );
}

#[test]
fn not_is_the_bitwise_complement() {
    for x in SAMPLES {
        assert_eq!(stack_after(&[Inst::I32Const(x), Inst::I32Not]), vec![!x]);
    }
}

#[test]
fn not_twice_gives_the_value_back() {
    for x in SAMPLES {
        assert_eq!(stack_after(&[Inst::I32Const(x), Inst::I32Not, Inst::I32Not]), vec![x]);
        assert_eq!(
            printed(&[Inst::I32Const(x), Inst::I32Not, Inst::I32Not, Inst::I32Print]),
            format!("{}", x)
        );
    }
}

#[test]
fn and_agrees_with_the_native_operator() {
    for a in SAMPLES {
        for b in SAMPLES {
            assert_eq!(
                stack_after(&[Inst::I32Const(a), Inst::I32Const(b), Inst::I32And]),
                vec![a & b]
            );
        }
    }
}

#[test]
fn or_agrees_with_the_native_operator() {
    for a in SAMPLES {
        for b in SAMPLES {
            assert_eq!(
                stack_after(&[Inst::I32Const(a), Inst::I32Const(b), Inst::I32Or]),
                vec![a | b]
            );
        }
    }
}

#[test]
fn xor_agrees_with_the_native_operator() {
    for a in SAMPLES {
        for b in SAMPLES {
            assert_eq!(
                stack_after(&[Inst::I32Const(a), Inst::I32Const(b), Inst::I32Xor]),
                vec![a ^ b]
            );
        }
    }
}

#[test]
fn binary_operators_leave_the_values_below_alone() {
    assert_eq!(
        stack_after(&[
            Inst::I32Const(9),
            Inst::I32Const(12),
            Inst::I32Const(10),
            Inst::I32Xor,
        ]),
        vec![9, 6]
    );
    assert_eq!(
        stack_after(&[
            Inst::I32Const(9),
            Inst::I32Const(12),
            Inst::I32Const(10),
            Inst::I32And,
            Inst::I32Or,
        ]),
        vec![9]
    );
}

#[test]
fn shl_agrees_with_the_native_shift_for_amounts_below_32() {
    for x in [1, -1, 334, 0x1234_5678, i32::MIN, 0] {
        for n in 0..32 {
            assert_eq!(
                stack_after(&[Inst::I32Const(x), Inst::I32Const(n), Inst::I32Shl]),
                vec![((x as u32) << n) as i32],
                "{} << {}",
                x,
                n
            );
        }
    }
}

#[test]
fn shl_by_32_or_more_gives_zero() {
    for x in [1, 5, -1, 0x1234_5678, i32::MIN] {
        for n in [32, 33, 63, 64, 0x100, 0x7fff_ffe4, -1, i32::MIN, i32::MIN + 3] {
            assert_eq!(
                stack_after(&[Inst::I32Const(x), Inst::I32Const(n), Inst::I32Shl]),
                vec![0],
                "{} << {}",
                x,
                n
            );
        }
    }
}

#[test]
fn shl_of_one_by_32_clears_every_cell_but_the_head() {
    let mut gen = Generator::new();
    gen.i32_const(1);
    gen.i32_const(32);
    gen.i32_shl();
    let run = run_text(&gen.build(), &[]);
    assert_eq!(run.pointer, 33);
    assert_eq!(run.tape[0], 1);
    for c in 1..run.tape.len() {
        assert_eq!(run.tape[c], 0, "cell {}", c);
    }
}

#[test]
fn routines_compose_by_plain_sequencing() {
    let mut gen = Generator::new();
    gen.i32_const(41);
    gen.i32_inc();
    gen.i32_print();
    gen.i32_const(6);
    gen.i32_inc();
    gen.i32_inc();
    gen.i32_const(2);
    gen.i32_shl();
    gen.i32_not();
    gen.i32_inc();
    gen.i32_print();
    let run = run_text(&gen.build(), &[]);
    assert_eq!(run.output, b"42-32".to_vec());
    assert_eq!(run.pointer, 0);
    assert!(run.tape.iter().all(|cell| *cell == 0));
}

#[test]
fn inc_leaves_the_pointer_behind_the_value() {
    let mut gen = Generator::new();
    gen.i32_const(7);
    gen.i32_inc();
    let run = run_text(&gen.build(), &[]);
    assert_eq!(run.pointer, 33);
    assert_eq!(&run.tape[..5], &[1, 0, 0, 0, 1]);
}

#[test]
fn inc_adds_one() {
    for x in [0, 1, 2, 3, 7, 255, 334, -2, -334, 0x00ff_ffff, i32::MAX] {
        assert_eq!(stack_after(&[Inst::I32Const(x), Inst::I32Inc]), vec![x.wrapping_add(1)]);
    }
}

#[test]
fn inc_wraps_and_clears_the_carry() {
    // stack_after also checks that the cell behind the value, where the
    // carry out of bit 31 lands, is back at 0
    assert_eq!(stack_after(&[Inst::I32Const(-1), Inst::I32Inc]), vec![0]);
    assert_eq!(printed(&[Inst::I32Const(-1), Inst::I32Inc, Inst::I32Print]), "0");
}

#[test]
fn inc_can_be_followed_by_any_instruction() {
    assert_eq!(
        stack_after(&[
            Inst::I32Const(1),
            Inst::I32Inc,
            Inst::I32Inc,
            Inst::I32Const(4),
            Inst::I32Or,
        ]),
        vec![7]
    );
    assert_eq!(
        printed(&[
            Inst::I32Const(41),
            Inst::I32Inc,
            Inst::I32Print,
            Inst::I32Const(1),
            Inst::I32Print,
        ]),
        "421"
    );
}

#[test]
fn dispatch_tells_many_instructions_apart() {
    let mut program = Vec::new();
    let mut expected = String::new();
    for a in 0..40 {
        program.push(Inst::I32Const(a * 3));
        program.push(Inst::I32Print);
        expected.push_str(&format!("{}", a * 3));
    }
    program.extend([
        Inst::I32Const(6),
        Inst::I32Const(3),
        Inst::I32Xor,
        Inst::I32Inc,
        Inst::I32Not,
    ]);
    program.push(Inst::I32Print);
    expected.push_str("-7");
    assert_eq!(printed(&program), expected);
}

#[test]
fn set_leaves_its_value_whatever_was_there() {
    let mut gen = Generator::new();
    gen.add(2, 200);
    gen.set(2, 5);
    gen.set(1, 3);
    gen.set(0, 0);
    let run = run_text(&gen.build(), &[]);
    assert_eq!(&run.tape[..3], &[0, 3, 5]);
    assert_eq!(run.pointer, 0);
}

#[test]
fn while_runs_its_body_until_the_slot_is_zero() {
    let mut body = Generator::new();
    body.sub(1, 1);
    body.add(2, 3);
    let mut gen = Generator::new();
    gen.add(1, 4);
    gen.while_nonzero(1, &body);
    let run = run_text(&gen.build(), &[]);
    assert_eq!(&run.tape[..3], &[0, 0, 12]);
    assert_eq!(run.pointer, 0);
}

#[test]
fn if_else_runs_exactly_one_arm() {
    let mut cons = Generator::new();
    cons.add(3, 10);
    let mut alt = Generator::new();
    alt.add(4, 20);
    for flag in [0, 1] {
        let mut gen = Generator::new();
        gen.add(1, flag);
        gen.if_else(1, 2, &cons, &alt);
        let run = run_text(&gen.build(), &[]);
        let mut tape = run.tape.clone();
        tape.resize(5, 0);
        if flag == 1 {
            assert_eq!(tape, vec![0, 0, 0, 10, 0]);
        } else {
            assert_eq!(tape, vec![0, 0, 0, 0, 20]);
        }
        assert_eq!(run.pointer, 0);
    }
}

#[test]
fn incs_and_decs_count_in_binary() {
    let mut gen = Generator::new();
    for _ in 0..5 {
        gen.incs(1);
    }
    let run = run_text(&gen.build(), &[]);
    assert_eq!(&run.tape[..4], &[0, 1, 0, 1]);
    for _ in 0..2 {
        gen.decs(1);
    }
    let run = run_text(&gen.build(), &[]);
    let mut tape = run.tape.clone();
    tape.resize(4, 0);
    assert_eq!(tape, vec![0, 1, 1, 0]);
    assert_eq!(run.pointer, 0);
}

#[test]
fn get_reads_and_put_writes() {
    let mut gen = Generator::new();
    gen.get(2);
    gen.add(2, 1);
    gen.put(2);
    let run = run_text(&gen.build(), b"a");
    assert_eq!(run.output, b"b".to_vec());
}

#[test]
fn print_agrees_with_decimal_formatting_on_scattered_values() {
    for x in scattered(24) {
        assert_eq!(printed(&[Inst::I32Const(x), Inst::I32Print]), format!("{}", x));
    }
}

#[test]
fn bitwise_routines_agree_with_the_native_operators_on_scattered_values() {
    let values = scattered(16);
    for pair in values.chunks(2) {
        let (a, b) = (pair[0], pair[1]);
        let program = [
            Inst::I32Const(a),
            Inst::I32Const(b),
            Inst::I32And,
            Inst::I32Const(a),
            Inst::I32Const(b),
            Inst::I32Or,
            Inst::I32Const(a),
            Inst::I32Const(b),
            Inst::I32Xor,
            Inst::I32Const(a),
            Inst::I32Not,
            Inst::I32Const(b),
            Inst::I32Inc,
        ];
        assert_eq!(stack_after(&program), vec![a & b, a | b, a ^ b, !a, b.wrapping_add(1)]);
    }
}

#[test]
fn shl_agrees_with_the_native_shift_on_scattered_values() {
    let values = scattered(12);
    for pair in values.chunks(2) {
        let (x, n) = (pair[0], pair[1]);
        let low = n & 31;
        assert_eq!(
            stack_after(&[Inst::I32Const(x), Inst::I32Const(low), Inst::I32Shl]),
            vec![((x as u32) << low) as i32]
        );
        let expected = if (n as u32) < 32 { ((x as u32) << n) as i32 } else { 0 };
        assert_eq!(
            stack_after(&[Inst::I32Const(x), Inst::I32Const(n), Inst::I32Shl]),
            vec![expected]
        );
    }
}

#[test]
fn while_runs_as_many_turns_as_the_slot_holds() {
    let mut body = Generator::new();
    body.sub(0, 1);
    body.add(1, 2);
    body.put(1);
    let mut gen = Generator::new();
    gen.add(0, 3);
    gen.while_nonzero(0, &body);
    let run = run_text(&gen.build(), &[]);
    assert_eq!(run.output, vec![2, 4, 6]);
    assert_eq!(&run.tape[..2], &[0, 6]);
}

#[test]
fn cells_wrap_at_256() {
    let mut gen = Generator::new();
    gen.add(0, 255);
    gen.add(0, 3);
    gen.sub(1, 1);
    let run = run_text(&gen.build(), &[]);
    assert_eq!(&run.tape[..2], &[2, 255]);
}

#[test]
fn compiled_program_ends_on_cell_zero_with_the_queue_run_through() {
    let program = [Inst::I32Const(6), Inst::I32Const(7), Inst::I32Xor, Inst::I32Print];
    let run = run_text(&compile(&program), &[]);
    assert_eq!(run.pointer, 0);
    assert_eq!(run.tape[0], 0);
    for block in 1..=program.len() {
        assert_eq!(run.tape[9 * block], 1);
        for bit in 1..=8 {
            assert_eq!(run.tape[9 * block + bit], 0);
        }
    }
    assert_eq!(run.output, b"1".to_vec());
}
