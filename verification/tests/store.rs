use compiler::{Inst, InstRef, Literal, ParseError, Program, SafeF32, Value};

fn recip(bits: u32) -> u32 {
    (1.0f32 / f32::from_bits(bits)).to_bits()
}

fn text(bits: u32) -> String {
    format!("{:?}", f32::from_bits(bits))
}

fn float(s: &str) -> Option<u32> {
    s.parse::<f32>().ok().map(|f| f.to_bits())
}

fn program(lines: &[&str]) -> Program {
    let mut p = Program::new();
    for line in lines {
        assert_eq!(p.parse_line(line, &float), Ok(()));
    }
    p
}

fn inst(lhs: &str, op: &str, args: Vec<Value>) -> Inst {
    Inst::new(lhs.to_string(), op.to_string(), args)
}

fn var(name: &str) -> Value {
    Value::Variable(name.to_string())
}

fn num(i: i32) -> Value {
    Value::Literal(Literal::Integer(i))
}

#[test]
fn instructions_are_added_at_either_end() {
    let mut p = Program::new();
    assert_eq!(p.first(), None);
    let b = p.insert_tail(inst("b", "move", vec![var("x")]));
    let c = p.insert_tail(inst("c", "move", vec![Value::Inst(b)]));
    let a = p.insert_head(inst("a", "move", vec![num(3)]));
    assert_eq!((b, c, a), (InstRef(0), InstRef(1), InstRef(2)));
    assert_eq!(p.first(), Some(a));
    assert_eq!(p.next_of(a), Some(b));
    assert_eq!(p.next_of(b), Some(c));
    assert_eq!(p.next_of(c), None);
    assert_eq!(p.instructions(), 3);
    assert_eq!(p.dump(), "a = move(3)\nb = move(x)\nc = move(b)\n");
}

#[test]
fn an_unlinked_instruction_stays_in_the_arena() {
    let mut p = program(&["a = move(x)", "b = move(y)", "c = move(z)"]);
    p.remove_inst(InstRef(1));
    assert_eq!(p.instructions(), 2);
    assert_eq!(p.arena_len(), 3);
    assert!(!p.is_live(InstRef(1)));
    assert!(p.is_live(InstRef(0)) && p.is_live(InstRef(2)));
    assert_eq!(p.next_of(InstRef(0)), Some(InstRef(2)));
    assert_eq!(p.get_inst(InstRef(1)).lhs(), "b");
    assert_eq!(p.dump(), "a = move(x)\nc = move(z)\n");
    // Unlinking it again changes nothing.
    p.remove_inst(InstRef(1));
    assert_eq!(p.dump(), "a = move(x)\nc = move(z)\n");
    // A new instruction takes a new slot.
    assert_eq!(p.insert_tail(inst("d", "move", vec![var("w")])), InstRef(3));
}

#[test]
fn head_and_tail_follow_what_is_unlinked() {
    let mut p = program(&["a = move(x)", "b = move(y)", "c = move(z)"]);
    p.remove_inst(InstRef(0));
    assert_eq!(p.first(), Some(InstRef(1)));
    p.remove_inst(InstRef(2));
    assert_eq!(p.next_of(InstRef(1)), None);
    p.insert_tail(inst("d", "move", vec![var("w")]));
    assert_eq!(p.dump(), "b = move(y)\nd = move(w)\n");
    p.remove_inst(InstRef(1));
    p.remove_inst(InstRef(3));
    assert_eq!(p.first(), None);
    assert_eq!(p.instructions(), 0);
    p.insert_head(inst("e", "move", vec![var("v")]));
    assert_eq!(p.dump(), "e = move(v)\n");
}

#[test]
fn an_instruction_shows_what_it_holds() {
    let p = program(&["T_0 = add_f(a, 7)", "y = mul_f(T_0, 1.5)"]);
    let y = p.get_inst(InstRef(1));
    assert_eq!(y.lhs(), "y");
    assert_eq!(y.op(), "mul_f");
    assert_eq!(
        y.args(),
        &vec![Value::Inst(InstRef(0)), Value::Literal(Literal::Float(SafeF32::from_bits(0x3fc0_0000)))]
    );
    assert!(y.use_set().is_empty());
    assert_eq!(p.args_len(InstRef(0)), 2);
    assert_eq!(p.arg(InstRef(0), 1), &num(7));
    assert_eq!(p.arg(InstRef(0), 0).clone(), var("a"));
}

#[test]
fn fields_are_replaced_one_instruction_at_a_time() {
    let mut p = program(&["T_0 = add_f(a, b)", "y = mul_f(T_0, c)"]);
    p.set_lhs(InstRef(1), "z".to_string());
    p.set_op(InstRef(1), "div_f".to_string());
    p.set_arg(InstRef(1), 1, num(2));
    p.insert_arg(InstRef(0), 0, var("first"));
    p.remove_arg(InstRef(0), 2);
    assert_eq!(p.dump(), "T_0 = add_f(first, a)\nz = div_f(T_0, 2)\n");
    p.set_args(InstRef(0), vec![var("only")]);
    assert_eq!(p.dump(), "T_0 = add_f(only)\nz = div_f(T_0, 2)\n");
    p.push_use(InstRef(0), InstRef(1));
    p.push_use(InstRef(0), InstRef(0));
    p.set_use(InstRef(0), 1, InstRef(1));
    assert_eq!(p.get_inst(InstRef(0)).use_set(), &vec![InstRef(1), InstRef(1)]);
    assert_eq!(p.uses_len(InstRef(0)), 2);
    assert_eq!(p.use_at(InstRef(0), 0), InstRef(1));
    p.clear_uses(InstRef(0));
    assert_eq!(p.uses_len(InstRef(0)), 0);
}

#[test]
fn temporaries_are_looked_up_by_their_latest_binding() {
    let mut p = program(&["T_0 = move(a)", "T_1 = move(b)", "T_0 = move(c)"]);
    assert_eq!(p.lookup_temp(&"T_0".to_string()), Some(InstRef(2)));
    assert_eq!(p.lookup_temp(&"T_1".to_string()), Some(InstRef(1)));
    assert_eq!(p.lookup_temp(&"T_2".to_string()), None);
    p.bind_temp("T_2".to_string(), InstRef(0));
    assert_eq!(p.lookup_temp(&"T_2".to_string()), Some(InstRef(0)));
    assert_eq!(p.parse_line("y = add_f(T_0, T_2)", &float), Ok(()));
    assert_eq!(p.get_inst(InstRef(3)).args(), &vec![Value::Inst(InstRef(2)), Value::Inst(InstRef(0))]);
    // A name that is no temporary is never bound.
    assert_eq!(p.lookup_temp(&"y".to_string()), None);
}

#[test]
fn analysis_records_each_use_in_program_order() {
    let mut p = program(&[
        "T_0 = add_f(a, b)",
        "T_1 = mul_f(T_0, T_0)",
        "y = sub_f(T_1, T_0)",
        "z = neg_f(y)",
    ]);
    p.analyze();
    assert_eq!(p.get_inst(InstRef(0)).use_set(), &vec![InstRef(1), InstRef(1), InstRef(2)]);
    assert_eq!(p.get_inst(InstRef(1)).use_set(), &vec![InstRef(2)]);
    assert!(p.get_inst(InstRef(2)).use_set().is_empty());
    // A second analysis starts the live instructions from nothing.
    p.analyze();
    assert_eq!(p.get_inst(InstRef(0)).use_set(), &vec![InstRef(1), InstRef(1), InstRef(2)]);
}

#[test]
fn analysis_leaves_the_uses_of_an_unlinked_instruction() {
    let mut p = program(&["T_0 = add_f(a, b)", "y = neg_f(T_0)", "z = neg_f(T_0)"]);
    p.analyze();
    p.remove_inst(InstRef(0));
    p.remove_inst(InstRef(2));
    p.analyze();
    // What it had is kept, and the one live user is recorded once more.
    assert_eq!(p.get_inst(InstRef(0)).use_set(), &vec![InstRef(1), InstRef(2), InstRef(1)]);
}

#[test]
fn elimination_twice_is_elimination_once() {
    let lines = [
        "T_0 = add_f(a, b)",
        "T_1 = mul_f(T_0, c)",
        "T_2 = neg_f(d)",
        "y = move(T_0)",
        "T_3 = neg_f(T_2)",
    ];
    let mut once = program(&lines);
    once.analyze();
    once.dce();
    let mut twice = program(&lines);
    twice.analyze();
    twice.dce();
    twice.dce();
    assert_eq!(once.dump(), "T_0 = add_f(a, b)\nT_2 = neg_f(d)\ny = move(T_0)\n");
    assert_eq!(twice.dump(), once.dump());
    assert_eq!(twice.instructions(), 3);
}

#[test]
fn optimization_runs_five_rounds_and_no_more() {
    // Each round removes the one temporary that the round before left unused.
    let mut p = program(&[
        "T_0 = neg_f(a)",
        "T_1 = abs_f(T_0)",
        "T_2 = neg_f(T_1)",
        "T_3 = abs_f(T_2)",
        "T_4 = neg_f(T_3)",
        "T_5 = abs_f(T_4)",
    ]);
    p.optimize(&recip, &text);
    assert_eq!(p.dump(), "T_0 = neg_f(a)\n");
    p.optimize(&recip, &text);
    assert_eq!(p.dump(), "");
}

#[test]
fn white_space_of_any_kind_is_trimmed() {
    let mut p = Program::new();
    assert_eq!(p.parse_line("\ty\u{2003}=\u{a0}move\u{3000}(\u{2028}x ) \r", &float), Ok(()));
    assert_eq!(p.parse_line("z = f( a ,b\t)", &float), Ok(()));
    assert_eq!(p.dump(), "y = move(x)\nz = f(a, b)\n");
    // A character that is no white space stays.
    assert_eq!(p.parse_line("\u{200b}v = move(x)", &float), Ok(()));
    assert_eq!(p.get_inst(InstRef(2)).lhs(), "\u{200b}v");
}

#[test]
fn the_bracket_that_is_opened_must_be_closed_once() {
    let mut p = Program::new();
    for line in [
        "y = add_f(a, b",
        "y = add_f(a, b))",
        "y = add_f(a), b)",
        "y = add_f(a, b) c",
        "y = add_f)a, b(",
        "y = add_f(",
        "y = )",
        "y = ",
        "y = add_f a, b)",
    ] {
        assert_eq!(p.parse_line(line, &float), Err(ParseError::Call), "{}", line);
    }
    assert_eq!(p.instructions(), 0);
    assert_eq!(p.arena_len(), 0);
    assert_eq!(p.parse_line("y = add_f(a, b)", &float), Ok(()));
    let lines = vec!["a = move(b)".to_string(), "y = add_f(a, b".to_string()];
    let mut q = Program::new();
    assert_eq!(q.parse(&lines, &float), Err(ParseError::Call));
    assert_eq!(q.dump(), "a = move(b)\n");
}

#[test]
fn a_number_begins_with_a_numeric_character() {
    let mut p = Program::new();
    assert_eq!(p.parse_line("y = f(007, 1_0, x9, .5, +5)", &float), Err(ParseError::InvalidLiteral));
    assert_eq!(p.parse_line("y = f(007, 0.5e1, x9, .5, +5, inf, T, T_)", &float), Err(ParseError::UndefinedTemporary));
    assert_eq!(p.parse_line("y = f(007, 0.5e1, x9, .5, +5, inf, T)", &float), Ok(()));
    assert_eq!(
        p.get_inst(InstRef(0)).args(),
        &vec![
            num(7),
            Value::Literal(Literal::Float(SafeF32::from_bits(0x40a0_0000))),
            var("x9"),
            var(".5"),
            var("+5"),
            var("inf"),
            var("T"),
        ]
    );
    // Numeric characters beyond the ASCII digits begin a literal too, and none is a number.
    assert_eq!(p.parse_line("y = f(\u{0663})", &float), Err(ParseError::InvalidLiteral));
    assert_eq!(p.parse_line("y = f(\u{2167})", &float), Err(ParseError::InvalidLiteral));
    assert_eq!(p.parse_line("y = f(x\u{0663})", &float), Ok(()));
}

#[test]
fn a_float_that_is_no_number_is_held_as_one_pattern() {
    let odd = |_: &str| Some(0xffc1_2345u32);
    let mut p = Program::new();
    assert_eq!(p.parse_line("y = f(1x)", &odd), Ok(()));
    assert_eq!(
        p.arg(InstRef(0), 0),
        &Value::Literal(Literal::Float(SafeF32::from_bits(0x7fc0_0000)))
    );
    let to_nan = |_: u32| 0x7f80_0001u32;
    let mut q = program(&["y = div_f(x, 0.0)"]);
    q.math(&to_nan);
    assert_eq!(q.arg(InstRef(0), 1), &Value::Literal(Literal::Float(SafeF32::from_bits(0x7fc0_0000))));
    assert_eq!(q.get_inst(InstRef(0)).op(), "mul_f");
}

#[test]
fn negative_integers_are_written_and_lifted_in_decimal() {
    let mut p = Program::new();
    p.insert_tail(inst("y", "gt_i", vec![var("x"), num(-5), num(i32::MIN), num(i32::MAX), num(0)]));
    assert_eq!(p.dump(), "y = gt_i(x, -5, -2147483648, 2147483647, 0)\n");
    assert_eq!(
        p.lift_candidates(),
        vec![Literal::Integer(-5), Literal::Integer(i32::MIN), Literal::Integer(i32::MAX)]
    );
    p.literal_to_mem(&text);
    assert_eq!(p.dump(), "y = gt_i(x, C_i_-5, C_i_-2147483648, C_i_2147483647, 0)\n");
}

#[test]
fn a_negative_integer_move_loads_the_high_bits_of_its_pattern() {
    let mut p = Program::new();
    p.insert_tail(inst("y", "move", vec![num(-8192)]));
    p.insert_tail(inst("z", "move", vec![num(i32::MIN)]));
    assert!(p.can_lower());
    p.lower(&text);
    assert_eq!(p.dump(), "y = lu_imm(524287)\nz = lu_imm(262144)\n");
    let mut q = Program::new();
    q.insert_tail(inst("y", "move", vec![num(-1)]));
    assert!(!q.can_lower());
}

#[test]
fn renaming_after_a_stale_use_unlinks_nothing_twice() {
    let mut p = program(&[
        "T_0 = add_f(a, b)",
        "T_1 = move(T_0)",
        "T_2 = add_f(c, d)",
        "y = add_f(e, f)",
    ]);
    p.analyze();
    p.dce();
    assert_eq!(p.dump(), "T_0 = add_f(a, b)\ny = add_f(e, f)\n");
    // T_0 still records the move that is gone.
    p.rename_results();
    assert_eq!(p.dump(), "T_1 = add_f(a, b)\ny = add_f(e, f)\n");
    assert_eq!(p.instructions(), 2);
}

#[test]
fn values_compare_by_what_they_hold() {
    assert_eq!(var("a"), var("a"));
    assert_ne!(var("a"), var("b"));
    assert_ne!(var("1"), num(1));
    assert_eq!(Value::Inst(InstRef(3)), Value::Inst(InstRef(3)));
    assert_ne!(Value::Inst(InstRef(3)), Value::Inst(InstRef(4)));
    let zero = Value::Literal(Literal::Float(SafeF32::from_bits(0)));
    let minus_zero = Value::Literal(Literal::Float(SafeF32::from_bits(0x8000_0000)));
    assert_ne!(zero, minus_zero);
    assert_eq!(zero.clone(), zero);
}

#[test]
fn each_error_says_what_is_wrong() {
    assert_eq!(ParseError::Assignment.message(), "a line must hold exactly one `=`");
    assert_eq!(ParseError::Call.message(), "an instruction must hold one `(` and end in its one `)`");
    assert_eq!(ParseError::EmptyOperand.message(), "an operand is empty");
    assert_eq!(ParseError::InvalidLiteral.message(), "invalid literal");
    assert_eq!(ParseError::UndefinedTemporary.message(), "temporary used before definition");
}

#[test]
fn the_users_of_a_renamed_move_name_the_producer() {
    let mut p = program(&["T_0 = add_f(a, b)", "T_1 = move(T_0)", "z = neg_f(T_1)", "w = sub_f(T_1, T_1)"]);
    p.analyze();
    p.rename_results();
    assert_eq!(p.dump(), "T_1 = add_f(a, b)\nz = neg_f(T_1)\nw = sub_f(T_1, T_1)\n");
    assert_eq!(p.arg(InstRef(2), 0), &Value::Inst(InstRef(0)));
    assert_eq!(p.get_inst(InstRef(3)).args(), &vec![Value::Inst(InstRef(0)), Value::Inst(InstRef(0))]);
    // The recorded uses are stale until the next analysis, which counts the users for the producer.
    assert!(p.get_inst(InstRef(0)).use_set().is_empty());
    p.analyze();
    assert_eq!(p.get_inst(InstRef(0)).use_set(), &vec![InstRef(2), InstRef(3), InstRef(3)]);
    p.dce();
    assert_eq!(p.instructions(), 3);
    assert!(p.is_printable());
}

#[test]
fn a_renamed_temporary_survives_optimization_while_it_is_read() {
    let mut p = program(&["T_0 = add_f(a, b)", "T_1 = move(T_0)", "z = neg_f(T_1)"]);
    p.optimize(&recip, &text);
    assert_eq!(p.dump(), "T_1 = add_f(a, b)\nz = neg_f(T_1)\n");
}

#[test]
fn the_live_instructions_are_listed_in_program_order() {
    let mut p = program(&["a = move(x)", "b = move(y)", "c = move(z)"]);
    p.insert_head(inst("d", "move", vec![var("w")]));
    p.remove_inst(InstRef(1));
    assert_eq!(p.live_order(), vec![InstRef(3), InstRef(0), InstRef(2)]);
    assert_eq!(Program::new().live_order(), vec![]);
}

#[test]
fn what_is_read_is_read_back_as_it_is_written() {
    let p = program(&["T_0 = add_i(a, 7)", "T_1 = mul_f(T_0, T_0)", "T_0 = neg_f(T_1)", "y = sub_f(T_0, b)"]);
    assert!(p.is_printable());
    let lines: Vec<String> = p.dump().lines().map(|l| l.to_string()).collect();
    let mut q = Program::new();
    assert_eq!(q.parse(&lines, &float), Ok(()));
    assert_eq!(q.dump(), p.dump());
    assert!(Program::new().is_printable());
}

#[test]
fn what_is_not_read_back_as_written_is_told_apart() {
    // A negative integer is written like a name.
    let mut p = Program::new();
    p.insert_tail(inst("y", "gt_i", vec![num(-5)]));
    assert!(!p.is_printable());
    // A float has no written form.
    assert!(!program(&["y = move(1.5)"]).is_printable());
    // An instruction without operands is no line.
    let mut p = Program::new();
    p.insert_tail(inst("y", "nop", vec![]));
    assert!(!p.is_printable());
    // A name that looks like a temporary or a number is read as one.
    for name in ["T_1", "1x", "", " x", "x ", "a,b", "a)", "a(b", "a=b", "a\nb"] {
        let mut p = Program::new();
        p.insert_tail(inst("y", "move", vec![var(name)]));
        assert!(!p.is_printable(), "{:?}", name);
    }
    // A destination may hold brackets and commas, an opcode a closing bracket and commas.
    let mut p = Program::new();
    p.insert_tail(inst("a(b),c", "f),g", vec![var("x")]));
    p.insert_tail(inst("", "", vec![var("x")]));
    assert!(p.is_printable());
    let lines: Vec<String> = p.dump().lines().map(|l| l.to_string()).collect();
    let mut q = Program::new();
    assert_eq!(q.parse(&lines, &float), Ok(()));
    assert_eq!(q.dump(), p.dump());
    assert_eq!(q.get_inst(InstRef(0)).lhs(), "a(b),c");
    assert_eq!(q.get_inst(InstRef(0)).op(), "f),g");
    for (lhs, op) in [("a=b", "f"), ("a", "f(g"), ("a", "f=g"), (" a", "f"), ("a", "f "), ("a\n", "f")] {
        let mut p = Program::new();
        p.insert_tail(inst(lhs, op, vec![var("x")]));
        assert!(!p.is_printable(), "{:?} {:?}", lhs, op);
    }
    // An operand must name the latest live definition of its temporary.
    let mut p = program(&["T_0 = move(a)", "T_0 = move(b)", "y = neg_f(T_0)"]);
    assert!(p.is_printable());
    p.set_arg(InstRef(2), 0, Value::Inst(InstRef(0)));
    assert!(!p.is_printable());
    p.set_arg(InstRef(2), 0, Value::Inst(InstRef(1)));
    p.remove_inst(InstRef(1));
    assert!(!p.is_printable());
    // A result that no temporary holds is written like a named operand.
    let mut p = program(&["x = move(a)"]);
    p.insert_tail(inst("y", "neg_f", vec![Value::Inst(InstRef(0))]));
    assert!(!p.is_printable());
}
