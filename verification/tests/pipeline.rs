use compiler::{ParseError, Program, SafeF32};

fn recip(bits: u32) -> u32 {
    (1.0f32 / f32::from_bits(bits)).to_bits()
}

fn text(bits: u32) -> String {
    format!("{:?}", f32::from_bits(bits))
}

fn float(s: &str) -> Option<u32> {
    s.parse::<f32>().ok().map(|f| f.to_bits())
}

fn program(lines: &[&str]) -> Program {
    let mut p = Program::new();
    for line in lines {
        assert_eq!(p.parse_line(line, &float), Ok(()));
    }
    p
}

fn compile(lines: &[&str]) -> String {
    let mut p = program(lines);
    p.analyze();
    p.optimize(&recip, &text);
    assert!(p.can_lower());
    p.lower(&text);
    p.analyze();
    p.optimize(&recip, &text);
    assert!(p.is_float_free());
    p.dump()
}

#[test]
fn empty_program_has_no_instructions() {
    let p = Program::new();
    assert_eq!(p.instructions(), 0);
    assert_eq!(p.arena_len(), 0);
    assert!(p.is_float_free());
    assert!(p.can_lower());
    assert_eq!(p.dump(), "");
}

#[test]
fn canonical_nan_is_one_pattern() {
    assert_eq!(SafeF32::from_bits(0x7fc0_0001).to_bits(), 0x7fc0_0000);
    assert_eq!(SafeF32::from_bits(0xffff_ffff).to_bits(), 0x7fc0_0000);
    assert_eq!(SafeF32::from_bits(0x7f80_0001).to_bits(), 0x7fc0_0000);
    assert_eq!(SafeF32::from_bits(0x7f80_0000).to_bits(), 0x7f80_0000);
    assert_eq!(SafeF32::from_bits(0xff80_0000).to_bits(), 0xff80_0000);
    assert_eq!(SafeF32::from_bits(0x3fc0_0000).to_bits(), 0x3fc0_0000);
    assert_eq!(SafeF32::from_bits(f32::NAN.to_bits()).to_bits(), f32::NAN.to_bits());
    let mut f = SafeF32::from_bits(0);
    f.set_bits(0x7fff_ffff);
    assert_eq!(f, SafeF32::from_bits(0xffc0_0000));
    f.set_bits(0x4020_0000);
    assert_eq!(f.to_bits(), 0x4020_0000);
}

#[test]
fn dump_writes_each_live_instruction_on_a_line() {
    let p = program(&["  T_0  =  add_i( a ,7 ) ", "y=move(T_0)", "z = neg_f(y)"]);
    assert_eq!(p.instructions(), 3);
    assert_eq!(p.dump(), "T_0 = add_i(a, 7)\ny = move(T_0)\nz = neg_f(y)\n");
}

#[test]
fn dump_then_parse_reproduces_the_program() {
    let p = program(&["T_0 = add_i(a, 7)", "T_1 = mul_f(T_0, T_0)", "y = sub_f(T_1, b)"]);
    let first = p.dump();
    let lines: Vec<String> = first.lines().map(|l| l.to_string()).collect();
    let mut q = Program::new();
    assert_eq!(q.parse(&lines, &float), Ok(()));
    assert_eq!(q.instructions(), 3);
    assert_eq!(q.dump(), first);
}

#[test]
fn parse_stops_at_the_first_bad_line() {
    let lines = vec![
        "a = move(b)".to_string(),
        "nothing here".to_string(),
        "c = move(d)".to_string(),
    ];
    let mut p = Program::new();
    assert_eq!(p.parse(&lines, &float), Err(ParseError::Assignment));
    assert_eq!(p.instructions(), 1);
    assert_eq!(p.dump(), "a = move(b)\n");
}

#[test]
fn a_line_needs_exactly_one_assignment() {
    let mut p = program(&["a = move(b)"]);
    assert_eq!(p.parse_line("a move(b)", &float), Err(ParseError::Assignment));
    assert_eq!(p.parse_line("a = b = move(c)", &float), Err(ParseError::Assignment));
    assert_eq!(p.parse_line("", &float), Err(ParseError::Assignment));
    assert_eq!(p.instructions(), 1);
    assert_eq!(p.arena_len(), 1);
    assert_eq!(p.dump(), "a = move(b)\n");
}

#[test]
fn a_line_needs_exactly_one_opening_bracket() {
    let mut p = Program::new();
    assert_eq!(p.parse_line("a = move b", &float), Err(ParseError::Call));
    assert_eq!(p.parse_line("a = move((b)", &float), Err(ParseError::Call));
    assert_eq!(p.instructions(), 0);
}

#[test]
fn an_operand_must_not_be_empty() {
    let mut p = Program::new();
    assert_eq!(p.parse_line("a = f()", &float), Err(ParseError::EmptyOperand));
    assert_eq!(p.parse_line("a = f(b, )", &float), Err(ParseError::EmptyOperand));
    assert_eq!(p.parse_line("a = f(,b)", &float), Err(ParseError::EmptyOperand));
    assert_eq!(p.instructions(), 0);
}

#[test]
fn a_literal_must_be_a_number() {
    let mut p = Program::new();
    assert_eq!(p.parse_line("a = f(1abc)", &float), Err(ParseError::InvalidLiteral));
    assert_eq!(p.parse_line("a = f(1.2.3)", &float), Err(ParseError::InvalidLiteral));
    assert_eq!(p.parse_line("a = f(\u{bd})", &float), Err(ParseError::InvalidLiteral));
    assert_eq!(p.instructions(), 0);
}

#[test]
fn a_temporary_must_be_defined_before_use() {
    let mut p = Program::new();
    assert_eq!(p.parse_line("a = f(T_9)", &float), Err(ParseError::UndefinedTemporary));
    assert_eq!(p.parse_line("T_9 = f(T_9)", &float), Err(ParseError::UndefinedTemporary));
    assert_eq!(p.instructions(), 0);
}

#[test]
fn the_first_bad_operand_decides_the_error() {
    let mut p = Program::new();
    assert_eq!(p.parse_line("a = f(1abc, T_9)", &float), Err(ParseError::InvalidLiteral));
    assert_eq!(p.parse_line("a = f(T_9, 1abc)", &float), Err(ParseError::UndefinedTemporary));
}

#[test]
fn operands_are_classified_by_how_they_begin() {
    let mut p = program(&["T_0 = gt_i(12, 2147483647, 2147483648, 1e3, x1, -5, T)"]);
    assert!(p.can_lower());
    p.lower(&text);
    // The two floats are 2147483648.0 and 1000.0; the others stay as written.
    assert_eq!(
        p.dump(),
        "T_f_1000_0 = lu_imm(140240)\n\
         T_f_2147483600_0 = lu_imm(161792)\n\
         T_0 = gt_i_imm(12, 2147483647, T_f_2147483600_0, T_f_1000_0, x1, -5, T)\n"
    );
}

#[test]
fn a_temporary_name_binds_to_its_latest_definition() {
    let mut p = program(&["T_0 = add_f(a, b)", "T_0 = mul_f(T_0, c)", "y = move(T_0)"]);
    p.analyze();
    // The first definition is used once, by the second; the second once, by y.
    p.dce();
    assert_eq!(p.instructions(), 3);
    p.fma();
    // The multiply (second) has one user, a move: no fusion.
    assert_eq!(p.dump(), "T_0 = add_f(a, b)\nT_0 = mul_f(T_0, c)\ny = move(T_0)\n");
    p.rename_results();
    assert_eq!(p.dump(), "T_0 = add_f(a, b)\ny = mul_f(T_0, c)\n");
}

#[test]
fn fusion_merges_single_use_multiply() {
    let mut p = program(&["T_0 = mul_f(a, b)", "T_1 = add_f(T_0, c)"]);
    p.analyze();
    p.fma();
    assert_eq!(p.instructions(), 1);
    assert_eq!(p.arena_len(), 2);
    assert_eq!(p.dump(), "T_1 = muladd_f(a, b, c)\n");
}

#[test]
fn fusion_takes_the_product_in_either_place_of_an_add() {
    let mut p = program(&["T_0 = mul_f(a, b)", "y = add_f(c, T_0)"]);
    p.analyze();
    p.fma();
    assert_eq!(p.dump(), "y = muladd_f(a, b, c)\n");
}

#[test]
fn fusion_takes_the_product_as_minuend_only() {
    let mut p = program(&["T_0 = mul_f(a, b)", "y = sub_f(T_0, c)"]);
    p.analyze();
    p.fma();
    assert_eq!(p.dump(), "y = mulsub_f(a, b, c)\n");

    let mut q = program(&["T_0 = mul_f(a, b)", "y = sub_f(c, T_0)"]);
    q.analyze();
    q.fma();
    assert_eq!(q.dump(), "T_0 = mul_f(a, b)\ny = sub_f(c, T_0)\n");
}

#[test]
fn fusion_needs_exactly_one_use() {
    let mut p = program(&["T_0 = mul_f(a, b)", "y = add_f(T_0, c)", "z = add_f(T_0, d)"]);
    p.analyze();
    p.fma();
    assert_eq!(p.instructions(), 3);

    let mut q = program(&["T_0 = mul_f(a, b)", "y = add_f(T_0, T_0)"]);
    q.analyze();
    q.fma();
    assert_eq!(q.instructions(), 2);
}

#[test]
fn fusion_hands_the_uses_of_the_factors_to_the_user() {
    let mut p = program(&["T_0 = add_f(a, b)", "T_1 = mul_f(T_0, c)", "y = add_f(T_1, d)"]);
    p.analyze();
    p.fma();
    assert_eq!(p.dump(), "T_0 = add_f(a, b)\ny = muladd_f(T_0, c, d)\n");
    // T_0 is now used by y, so it is not dead.
    p.dce();
    assert_eq!(p.instructions(), 2);
}

#[test]
fn fusion_through_optimize() {
    assert_eq!(compile(&["T_0 = mul_f(a, b)", "y = add_f(T_0, c)"]), "y = muladd_f(a, b, c)\n");
}

#[test]
fn duplicates_are_merged_into_the_first() {
    let mut p = program(&["T_0 = add_f(a,b)", "T_1 = add_f(a,b)", "T_2 = mul_f(T_1, c)"]);
    p.analyze();
    p.cse();
    assert_eq!(p.instructions(), 2);
    assert_eq!(p.dump(), "T_0 = add_f(a, b)\nT_2 = mul_f(T_0, c)\n");
    // The first now records the user of the duplicate.
    p.dce();
    assert_eq!(p.dump(), "T_0 = add_f(a, b)\n");
}

#[test]
fn duplicates_cascade_within_one_pass() {
    let mut p = program(&[
        "T_0 = add_f(a, b)",
        "T_1 = add_f(a, b)",
        "T_2 = mul_f(T_0, c)",
        "T_3 = mul_f(T_1, c)",
        "y = sub_f(T_2, T_3)",
    ]);
    p.analyze();
    p.cse();
    assert_eq!(p.dump(), "T_0 = add_f(a, b)\nT_2 = mul_f(T_0, c)\ny = sub_f(T_2, T_2)\n");
}

#[test]
fn nothing_is_merged_into_or_out_of_a_named_destination() {
    let mut p = program(&["x = add_f(a, b)", "T_1 = add_f(a, b)", "y = mul_f(T_1, c)"]);
    p.analyze();
    p.cse();
    assert_eq!(p.dump(), "x = add_f(a, b)\nT_1 = add_f(a, b)\ny = mul_f(T_1, c)\n");

    let mut q = program(&["T_0 = add_f(a, b)", "x = add_f(a, b)", "y = mul_f(T_0, c)"]);
    q.analyze();
    q.cse();
    assert_eq!(q.instructions(), 3);
}

#[test]
fn float_literals_compare_by_pattern() {
    let mut p = program(&["T_0 = add_f(a, 0.5)", "T_1 = add_f(a, 0.50)", "y = mul_f(T_0, T_1)"]);
    p.analyze();
    p.cse();
    assert_eq!(p.instructions(), 2);
}

#[test]
fn multiplication_by_one_becomes_a_move_and_is_seen_through() {
    let mut p = program(&["T_0 = mul_f(1.0, x)", "y = add_f(T_0, z)"]);
    p.analyze();
    p.math(&recip);
    assert_eq!(p.dump(), "T_0 = move(x)\ny = add_f(T_0, z)\n");
    p.peephole();
    assert_eq!(p.instructions(), 1);
    assert_eq!(p.dump(), "y = add_f(x, z)\n");
}

#[test]
fn one_must_match_bit_for_bit_and_stand_first() {
    let mut p = program(&["a = mul_f(x, 1.0)", "b = mul_f(1.0000001, x)", "c = mul_f(1, x)"]);
    p.math(&recip);
    p.literal_to_mem(&text);
    assert_eq!(p.dump(), "a = mul_f(x, C_f_1_0)\nb = mul_f(C_f_1_0000001, x)\nc = mul_f(1, x)\n");
}

#[test]
fn fused_multiply_by_one_becomes_an_add() {
    let mut p = program(&["y = muladd_f(a, 1.0, b)", "z = muladd_f(1.0, a, b)"]);
    p.math(&recip);
    p.literal_to_mem(&text);
    assert_eq!(p.dump(), "y = add_f(a, b)\nz = muladd_f(C_f_1_0, a, b)\n");
}

#[test]
fn division_by_a_literal_becomes_a_multiplication() {
    let mut p = program(&["y = div_f(x, 4.0)", "z = div_f(x, w)", "v = div_f(x, 3.0)", "u = div_f(x, 2)"]);
    p.math(&recip);
    p.literal_to_mem(&text);
    assert_eq!(
        p.dump(),
        "y = mul_f(x, C_f_0_25)\nz = div_f(x, w)\nv = mul_f(x, C_f_0_33333334)\nu = div_f(x, 2)\n"
    );
}

#[test]
fn dead_temporaries_are_removed_once() {
    let mut p = program(&["T_0 = add_f(a, b)", "T_1 = mul_f(T_0, c)", "y = move(d)"]);
    p.analyze();
    p.dce();
    // T_1 is dead; T_0 was used by T_1 when the analysis ran, so it stays.
    assert_eq!(p.dump(), "T_0 = add_f(a, b)\ny = move(d)\n");
    p.dce();
    assert_eq!(p.dump(), "T_0 = add_f(a, b)\ny = move(d)\n");
    p.analyze();
    p.dce();
    assert_eq!(p.dump(), "y = move(d)\n");
}

#[test]
fn a_result_that_is_only_moved_takes_the_name_it_is_moved_to() {
    let mut p = program(&["T_0 = add_f(a, b)", "y = move(T_0)"]);
    p.analyze();
    p.rename_results();
    assert_eq!(p.dump(), "y = add_f(a, b)\n");
}

#[test]
fn renaming_goes_on_after_the_unlinked_successor() {
    let mut p = program(&["T_0 = add_f(a, b)", "T_1 = move(T_0)", "x = move(c)", "T_2 = neg_f(x)"]);
    p.analyze();
    p.rename_results();
    assert_eq!(p.dump(), "T_1 = add_f(a, b)\nx = move(c)\nT_2 = neg_f(x)\n");
}

#[test]
fn a_moved_value_is_used_directly() {
    let mut p = program(&["T_0 = move(7)", "y = add_i(T_0, T_0)", "z = sub_i(a, T_0)"]);
    p.analyze();
    p.move_through();
    assert_eq!(p.dump(), "y = add_i(7, 7)\nz = sub_i(a, 7)\n");
}

#[test]
fn a_move_into_a_named_destination_stays() {
    let mut p = program(&["x = move(a)", "y = add_f(x, x)"]);
    p.analyze();
    p.peephole();
    assert_eq!(p.dump(), "x = move(a)\ny = add_f(x, x)\n");
}

#[test]
fn duplicates_are_merged_by_optimization() {
    assert_eq!(
        compile(&["T_0 = add_f(a, b)", "T_1 = add_f(a, b)", "y = mul_f(T_0, T_1)"]),
        "T_0 = add_f(a, b)\ny = mul_f(T_0, T_0)\n"
    );
}

#[test]
fn multiplication_by_one_is_removed_by_optimization() {
    assert_eq!(compile(&["T_0 = mul_f(1.0, x)", "y = neg_f(T_0)"]), "y = neg_f(x)\n");
}

#[test]
fn an_unused_temporary_does_not_survive_optimization() {
    assert_eq!(compile(&["T_0 = mul_f(a, b)", "T_1 = add_f(T_0, c)"]), "");
}
