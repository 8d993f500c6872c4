use bfgen::command::BfCmd;
use bfgen::generator::Generator;

fn net_movement(text: &str) -> i64 {
    let mut net: i64 = 0;
    for c in text.chars() {
        if c == '>' {
            net += 1;
        } else if c == '<' {
            net -= 1;
        }
    }
    net
}

#[test]
fn i32_print_keep_within_range() {
    let mut cells = vec![0; 10];
    for i in 0..32 {
        let mut digits = (1 << i) as u32;
        let mut j = 0;
        while digits > 0 {
            let d = (digits % 10) as i32;
            cells[j] += d;
            digits /= 10;
            j += 1;
        }
    }
    let mut carry = 0;
    for value in cells {
        if value + carry >= 256 {
            panic!("overflow!!");
        }
        carry = (value + carry) / 10;
    }
}

#[test]
fn digit_sums_have_their_exact_values() {
    let mut cells = vec![0u32; 10];
    for i in 0..32 {
        let mut digits: u32 = 1u32 << i;
        let mut j = 0;
        while digits > 0 {
            cells[j] += digits % 10;
            digits /= 10;
            j += 1;
        }
    }
    assert_eq!(cells, vec![155, 114, 90, 97, 86, 50, 59, 33, 9, 3]);
}

#[test]
fn new_buffer_is_empty() {
    let gen = Generator::new();
    assert_eq!(gen.len(), 0);
    assert_eq!(gen.build(), "");
}

#[test]
fn each_command_has_its_symbol() {
    let mut gen = Generator::new();
    gen.bf_inc();
    gen.bf_right();
    gen.bf_open();
    gen.bf_dec();
    gen.bf_left();
    gen.bf_close();
    gen.bf_get();
    gen.bf_put();
    assert_eq!(gen.build(), "+>[-<],.");
    assert_eq!(gen.len(), 8);
    assert_eq!(gen.command(0), BfCmd::Inc);
    assert_eq!(gen.command(7), BfCmd::Put);
}

#[test]
fn build_can_be_repeated() {
    let mut gen = Generator::new();
    gen.bf_inc();
    gen.bf_put();
    assert_eq!(gen.build(), "+.");
    assert_eq!(gen.build(), "+.");
    gen.bf_put();
    assert_eq!(gen.build(), "+..");
}

#[test]
fn increment_then_decrement_cancels() {
    let mut gen = Generator::new();
    gen.bf_inc();
    gen.bf_dec();
    assert_eq!(gen.build(), "");
    assert_eq!(gen.len(), 0);
}

#[test]
fn decrement_then_increment_cancels() {
    let mut gen = Generator::new();
    gen.bf_dec();
    gen.bf_inc();
    assert_eq!(gen.build(), "");
}

#[test]
fn right_then_left_cancels() {
    let mut gen = Generator::new();
    gen.bf_right();
    gen.bf_left();
    assert_eq!(gen.build(), "");
}

#[test]
fn left_then_right_cancels() {
    let mut gen = Generator::new();
    gen.bf_left();
    gen.bf_right();
    assert_eq!(gen.build(), "");
}

#[test]
fn cancellation_restores_a_longer_buffer() {
    let mut gen = Generator::new();
    gen.raw("+>[-");
    gen.bf_right();
    gen.bf_left();
    assert_eq!(gen.build(), "+>[-");
    gen.bf_inc();
    assert_eq!(gen.build(), "+>[");
    gen.bf_dec();
    assert_eq!(gen.build(), "+>[-");
}

#[test]
fn cancellation_looks_back_one_command_only() {
    let mut gen = Generator::new();
    gen.raw("+-+");
    assert_eq!(gen.build(), "+");
    let mut gen = Generator::new();
    gen.raw("+><+");
    assert_eq!(gen.build(), "++");
    let mut gen = Generator::new();
    gen.raw("+><-");
    assert_eq!(gen.build(), "");
}

#[test]
fn equal_commands_do_not_cancel() {
    let mut gen = Generator::new();
    gen.bf_inc();
    gen.bf_inc();
    gen.bf_right();
    gen.bf_right();
    assert_eq!(gen.build(), "++>>");
}

#[test]
fn brackets_and_io_are_never_cancelled() {
    let mut gen = Generator::new();
    gen.raw("[][].,,.");
    assert_eq!(gen.build(), "[][].,,.");
}

#[test]
fn append_follows_the_rule_for_any_command() {
    let mut gen = Generator::new();
    gen.append(BfCmd::Left);
    gen.append(BfCmd::Right);
    gen.append(BfCmd::Open);
    gen.append(BfCmd::Close);
    gen.append(BfCmd::Dec);
    gen.append(BfCmd::Inc);
    assert_eq!(gen.build(), "[]");
}

#[test]
fn undo_pairs_the_commands() {
    assert_eq!(BfCmd::Inc.undo(), Some(BfCmd::Dec));
    assert_eq!(BfCmd::Dec.undo(), Some(BfCmd::Inc));
    assert_eq!(BfCmd::Right.undo(), Some(BfCmd::Left));
    assert_eq!(BfCmd::Left.undo(), Some(BfCmd::Right));
    assert_eq!(BfCmd::Open.undo(), None);
    assert_eq!(BfCmd::Close.undo(), None);
    assert_eq!(BfCmd::Get.undo(), None);
    assert_eq!(BfCmd::Put.undo(), None);
}

#[test]
fn raw_skips_other_characters() {
    let mut gen = Generator::new();
    gen.raw("a+ b>\n[c]x<.");
    assert_eq!(gen.build(), "+>[]<.");
}

#[test]
fn right_moves_by_its_argument() {
    let mut gen = Generator::new();
    gen.right(3);
    assert_eq!(gen.build(), ">>>");
    gen.right(-5);
    assert_eq!(gen.build(), "<<");
    gen.right(0);
    assert_eq!(gen.build(), "<<");
}

#[test]
fn left_moves_the_other_way() {
    let mut gen = Generator::new();
    gen.left(2);
    assert_eq!(gen.build(), "<<");
    gen.left(-3);
    assert_eq!(gen.build(), ">");
    gen.left(0);
    assert_eq!(gen.build(), ">");
}

#[test]
fn enter_and_exit_are_paired() {
    let mut gen = Generator::new();
    gen.enter(4);
    assert_eq!(gen.build(), ">>>>");
    gen.exit(4);
    assert_eq!(gen.build(), "");
    gen.enter(-2);
    assert_eq!(gen.build(), "<<");
    gen.exit(-2);
    assert_eq!(gen.build(), "");
}

#[test]
fn add_visits_the_slot_and_returns() {
    let mut gen = Generator::new();
    gen.add(2, 3);
    assert_eq!(gen.build(), ">>+++<<");
    let mut gen = Generator::new();
    gen.add(-1, -2);
    assert_eq!(gen.build(), "<-->");
    let mut gen = Generator::new();
    gen.add(0, 1);
    assert_eq!(gen.build(), "+");
    let mut gen = Generator::new();
    gen.add(5, 0);
    assert_eq!(gen.build(), "");
}

#[test]
fn sub_is_add_of_the_negative() {
    let mut gen = Generator::new();
    gen.sub(2, 3);
    assert_eq!(gen.build(), ">>---<<");
    let mut gen = Generator::new();
    gen.sub(1, -2);
    assert_eq!(gen.build(), ">++<");
}

#[test]
fn neighbouring_visits_share_their_way() {
    let mut gen = Generator::new();
    gen.add(3, 1);
    gen.add(4, 1);
    assert_eq!(gen.build(), ">>>+>+<<<<");
    let mut gen = Generator::new();
    gen.add(3, 1);
    gen.sub(3, 1);
    assert_eq!(gen.build(), "");
}

#[test]
fn get_and_put_visit_the_slot() {
    let mut gen = Generator::new();
    gen.get(1);
    gen.put(2);
    assert_eq!(gen.build(), ">,>.<<");
}

#[test]
fn while_wraps_the_body_in_a_loop_on_the_slot() {
    let mut body = Generator::new();
    body.add(1, 1);
    let mut gen = Generator::new();
    gen.while_nonzero(2, &body);
    assert_eq!(gen.build(), ">>[<+>]<<");
    let empty = Generator::new();
    let mut gen = Generator::new();
    gen.while_nonzero(0, &empty);
    assert_eq!(gen.build(), "[]");
    let mut gen = Generator::new();
    gen.while_nonzero(-1, &empty);
    assert_eq!(gen.build(), "<[]>");
}

#[test]
fn extend_cancels_where_the_block_meets_the_buffer() {
    let mut block = Generator::new();
    block.raw("<<-+.");
    assert_eq!(block.build(), "<<.");
    let mut gen = Generator::new();
    gen.raw("+>>>");
    gen.extend(&block);
    assert_eq!(gen.build(), "+>.");
}

#[test]
fn set_clears_the_slot_then_adds() {
    let mut gen = Generator::new();
    gen.set(1, 2);
    assert_eq!(gen.build(), ">[-]++<");
    let mut gen = Generator::new();
    gen.set(0, 0);
    assert_eq!(gen.build(), "[-]");
    let mut gen = Generator::new();
    gen.set(2, -1);
    assert_eq!(gen.build(), ">>[-]-<<");
}

#[test]
fn if_else_is_two_loops_and_the_flag_cleared() {
    let mut cons = Generator::new();
    cons.put(5);
    let mut alt = Generator::new();
    alt.get(5);
    let mut gen = Generator::new();
    gen.if_else(1, 0, &cons, &alt);
    assert_eq!(gen.build(), ">[>>>>.<<<<<->-]+<+[->->>>>,<<<<<]>[-]<");
}

#[test]
fn incs_is_the_carry_chain_at_the_slot() {
    let mut gen = Generator::new();
    gen.incs(1);
    assert_eq!(gen.build(), ">[>]+<[-<]");
    let mut gen = Generator::new();
    gen.incs(0);
    assert_eq!(gen.build(), "[>]+<[-<]>");
}

#[test]
fn decs_is_the_borrow_chain_at_the_slot() {
    let mut gen = Generator::new();
    gen.decs(1);
    assert_eq!(gen.build(), ">-[++>-]<[<]");
    let mut gen = Generator::new();
    gen.decs(0);
    assert_eq!(gen.build(), "-[++>-]<[<]>");
}

#[test]
fn visits_leave_the_pointer_where_it_was() {
    let mut body = Generator::new();
    body.add(7, 2);
    body.set(3, 1);
    let mut gen = Generator::new();
    gen.add(5, 3);
    gen.sub(-4, 2);
    gen.get(9);
    gen.put(-9);
    gen.set(6, 4);
    gen.while_nonzero(8, &body);
    gen.if_else(2, 1, &body, &body);
    gen.incs(3);
    gen.decs(4);
    gen.i32_not();
    gen.i32_inc();
    assert_eq!(net_movement(&gen.build()), 0);
}

#[test]
fn each_routine_moves_the_pointer_by_its_own_amount() {
    let mut gen = Generator::new();
    gen.i32_const(5);
    assert_eq!(net_movement(&gen.build()), 33);
    let mut gen = Generator::new();
    gen.i32_not();
    assert_eq!(net_movement(&gen.build()), 0);
    let mut gen = Generator::new();
    gen.i32_and();
    assert_eq!(net_movement(&gen.build()), -33);
    let mut gen = Generator::new();
    gen.i32_or();
    assert_eq!(net_movement(&gen.build()), -33);
    let mut gen = Generator::new();
    gen.i32_xor();
    assert_eq!(net_movement(&gen.build()), -33);
    let mut gen = Generator::new();
    gen.i32_shl();
    assert_eq!(net_movement(&gen.build()), -33);
    let mut gen = Generator::new();
    gen.i32_inc();
    assert_eq!(net_movement(&gen.build()), 0);
    let mut gen = Generator::new();
    gen.i32_print();
    assert_eq!(net_movement(&gen.build()), -6);
}

#[test]
fn constant_load_writes_head_and_set_bits() {
    let mut gen = Generator::new();
    gen.i32_const(5);
    let mut expected = String::from("+>+>>+");
    for _ in 0..30 {
        expected.push('>');
    }
    assert_eq!(gen.build(), expected);
    let mut gen = Generator::new();
    gen.i32_const(0);
    let mut expected = String::from("+");
    for _ in 0..33 {
        expected.push('>');
    }
    assert_eq!(gen.build(), expected);
    let mut gen = Generator::new();
    gen.i32_const(-1);
    let mut expected = String::from("+");
    for _ in 0..32 {
        expected.push_str(">+");
    }
    expected.push('>');
    assert_eq!(gen.build(), expected);
}

#[test]
fn complement_starts_at_the_top_bit() {
    let mut gen = Generator::new();
    gen.i32_not();
    let text = gen.build();
    assert!(text.starts_with("+<[->-<]"));
    assert!(text.ends_with("[-<+>]"));
    assert_eq!(text.matches('[').count(), 64);
    assert_eq!(text.matches(']').count(), 64);
}

#[test]
fn increment_is_the_carry_chain_between_head_moves() {
    let mut gen = Generator::new();
    gen.i32_inc();
    let mut expected = String::new();
    for _ in 0..33 {
        expected.push('<');
    }
    expected.push_str("->[>]+<[-<]+");
    for _ in 0..33 {
        expected.push('>');
    }
    expected.push_str("[-]");
    assert_eq!(gen.build(), expected);
}
