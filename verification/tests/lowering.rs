use compiler::{Program, SafeF32, Literal};

fn recip(bits: u32) -> u32 {
    (1.0f32 / f32::from_bits(bits)).to_bits()
}

fn text(bits: u32) -> String {
    format!("{:?}", f32::from_bits(bits))
}

fn float(s: &str) -> Option<u32> {
    s.parse::<f32>().ok().map(|f| f.to_bits())
}

fn program(lines: &[&str]) -> Program {
    let mut p = Program::new();
    for line in lines {
        assert_eq!(p.parse_line(line, &float), Ok(()));
    }
    p
}

fn compile(lines: &[&str]) -> String {
    let mut p = program(lines);
    p.analyze();
    p.optimize(&recip, &text);
    assert!(p.can_lower());
    p.lower(&text);
    p.analyze();
    p.optimize(&recip, &text);
    assert!(p.is_float_free());
    p.dump()
}

fn names(n: usize) -> Vec<String> {
    // One instruction that uses `n` distinct external names: n - 1 operands and its destination.
    let mut line = String::from("out = pack(");
    for i in 0..n - 1 {
        if i != 0 {
            line.push_str(", ");
        }
        line.push_str(&format!("v{}", i));
    }
    line.push(')');
    vec![line]
}

#[test]
fn a_float_with_a_zero_low_field_takes_one_instruction() {
    let mut p = program(&["y = mul_f(x, 2.5)"]);
    assert!(!p.is_float_free());
    assert!(p.can_lower());
    p.lower(&text);
    assert!(p.is_float_free());
    assert_eq!(p.dump(), "T_f_2_5 = lu_imm(131328)\ny = mul_f(x, T_f_2_5)\n");
}

#[test]
fn a_float_with_a_low_field_takes_two_instructions() {
    let mut p = program(&["y = mul_f(x, 0.1)"]);
    p.lower(&text);
    assert_eq!(
        p.dump(),
        "T_f_hi_0_1 = lu_imm(126566)\nT_f_0_1 = or_i_imm(T_f_hi_0_1, 3277)\ny = mul_f(x, T_f_0_1)\n"
    );
    assert_eq!(p.instructions(), 3);
    assert_eq!(p.arena_len(), 3);
}

#[test]
fn a_float_used_twice_is_built_once() {
    let mut p = program(&["y = mul_f(x, 0.1)", "z = add_f(0.1, 2.5)", "w = sub_f(2.5, 0.1)"]);
    p.lower(&text);
    assert_eq!(
        p.dump(),
        "T_f_2_5 = lu_imm(131328)\n\
         T_f_hi_0_1 = lu_imm(126566)\n\
         T_f_0_1 = or_i_imm(T_f_hi_0_1, 3277)\n\
         y = mul_f(x, T_f_0_1)\n\
         z = add_f(T_f_0_1, T_f_2_5)\n\
         w = sub_f(T_f_2_5, T_f_0_1)\n"
    );
    assert_eq!(p.arena_len(), 6);
    // The uses recorded by the next analysis are those of the one built instruction.
    p.analyze();
    let built = p.get_inst(compiler::InstRef(3));
    assert_eq!(built.lhs(), "T_f_0_1");
    assert_eq!(built.use_set().len(), 3);
}

#[test]
fn an_integer_move_loads_the_high_field() {
    let mut p = program(&["y = move(8192)", "z = move(1073741824)", "w = move(0)"]);
    assert!(p.can_lower());
    p.lower(&text);
    assert_eq!(p.dump(), "y = lu_imm(1)\nz = lu_imm(131072)\nw = lu_imm(0)\n");
}

#[test]
fn an_integer_move_with_a_low_field_cannot_be_lowered() {
    assert!(!program(&["y = move(5)"]).can_lower());
    assert!(!program(&["y = move(8193)"]).can_lower());
    assert!(!program(&["y = move(8192, 8192)"]).can_lower());
    assert!(program(&["y = move(x)"]).can_lower());
}

#[test]
fn an_integer_operand_needs_an_immediate_form() {
    assert!(!program(&["y = add_i(x, 5)"]).can_lower());
    assert!(!program(&["a = move(b)", "y = mul_f(5, x)"]).can_lower());
    assert!(program(&["y = gt_i(x, 5)"]).can_lower());
    assert!(program(&["y = sub_i(x, 5)"]).can_lower());
    assert!(program(&["y = shl_imm(x, 5)"]).can_lower());
    assert!(program(&["y = add_i(x, 5.0)"]).can_lower());
}

#[test]
fn an_integer_operand_gives_the_opcode_its_immediate_form() {
    let mut p = program(&["y = gt_i(x, 5)", "z = sub_i(3, 4)", "w = and_imm(x, 1)", "v = gt_i(a, b)"]);
    p.lower(&text);
    assert_eq!(
        p.dump(),
        "y = gt_i_imm(x, 5)\nz = sub_i_imm(3, 4)\nw = and_imm(x, 1)\nv = gt_i(a, b)\n"
    );
    // What is lowered can be lowered again, and nothing changes.
    assert!(p.can_lower());
    p.lower(&text);
    assert_eq!(
        p.dump(),
        "y = gt_i_imm(x, 5)\nz = sub_i_imm(3, 4)\nw = and_imm(x, 1)\nv = gt_i(a, b)\n"
    );
}

#[test]
fn lifting_replaces_every_occurrence() {
    let mut p = program(&["y = mul_f(x, 2.5)", "z = add_f(2.5, 100000)", "w = sub_i(100000, 7)"]);
    p.literal_to_mem(&text);
    assert_eq!(
        p.dump(),
        "y = mul_f(x, C_f_2_5)\nz = add_f(C_f_2_5, C_i_100000)\nw = sub_i(C_i_100000, 7)\n"
    );
}

#[test]
fn small_integers_are_never_lifted() {
    let mut p = program(&["y = gt_i(0, 8191)", "z = gt_i(8192, 1)"]);
    assert_eq!(p.lift_candidates(), vec![Literal::Integer(8192)]);
    p.literal_to_mem(&text);
    assert_eq!(p.dump(), "y = gt_i(0, 8191)\nz = gt_i(C_i_8192, 1)\n");
}

#[test]
fn candidates_come_in_the_order_of_first_use() {
    let p = program(&["y = f(0.1, 2.5, 9000)", "z = f(2.5, 0.5, 0.1)"]);
    assert_eq!(
        p.lift_candidates(),
        vec![
            Literal::Float(SafeF32::from_bits(0x3dcc_cccd)),
            Literal::Float(SafeF32::from_bits(0x4020_0000)),
            Literal::Integer(9000),
            Literal::Float(SafeF32::from_bits(0x3f00_0000)),
        ]
    );
}

#[test]
fn names_in_use_are_counted_once() {
    let p = program(&["T_0 = add_f(a, b)", "y = mul_f(T_0, a)", "y = neg_f(y)", "T_1 = move(4)"]);
    // a, b, y
    assert_eq!(p.used_names(), 3);
    let wide = names(30);
    let refs: Vec<&str> = wide.iter().map(|s| s.as_str()).collect();
    assert_eq!(program(&refs).used_names(), 30);
}

#[test]
fn the_budget_is_what_is_left_of_32_names() {
    // 30 names in use: two literals can be lifted, the costlier first.
    let mut lines = names(30);
    lines.push("T_0 = f(2.5, 0.1, 0.5, 0.3)".to_string());
    let refs: Vec<&str> = lines.iter().map(|s| s.as_str()).collect();
    let mut p = program(&refs);
    assert_eq!(p.used_names(), 30);
    p.literal_to_mem(&text);
    // 0.1 and 0.3 cost two instructions each; 2.5 and 0.5 cost one and are left.
    assert_eq!(
        p.lift_candidates(),
        vec![
            Literal::Float(SafeF32::from_bits(0x4020_0000)),
            Literal::Float(SafeF32::from_bits(0x3f00_0000)),
        ]
    );
    // The two constants are names too: nothing is left for a second pass.
    assert_eq!(p.used_names(), 32);
    p.literal_to_mem(&text);
    assert_eq!(p.lift_candidates().len(), 2);
    p.lower(&text);
    assert_eq!(p.dump().lines().last().unwrap(), "T_0 = f(T_f_2_5, C_f_0_1, T_f_0_5, C_f_0_3)");
}

#[test]
fn one_name_left_goes_to_the_first_of_the_costliest() {
    let mut lines = names(31);
    lines.push("T_0 = gt_i(2.5, 0.1, 70000, 0.3)".to_string());
    let refs: Vec<&str> = lines.iter().map(|s| s.as_str()).collect();
    let mut p = program(&refs);
    p.literal_to_mem(&text);
    assert!(p.can_lower());
    p.lower(&text);
    assert_eq!(
        p.dump().lines().last().unwrap(),
        "T_0 = gt_i_imm(T_f_2_5, C_f_0_1, 70000, T_f_0_3)"
    );
}

#[test]
fn no_name_left_means_no_lifting() {
    for n in [32usize, 33, 40] {
        let mut lines = names(n);
        lines.push("T_0 = f(2.5, 0.1)".to_string());
        let refs: Vec<&str> = lines.iter().map(|s| s.as_str()).collect();
        let mut p = program(&refs);
        let before = p.lift_candidates();
        assert_eq!(before.len(), 2);
        p.literal_to_mem(&text);
        assert_eq!(p.lift_candidates(), before);
        assert_eq!(p.used_names(), n);
    }
}

#[test]
fn negative_integers_are_lifted_under_their_decimal_form() {
    let mut p = program(&["T_0 = move(3)", "y = sub_i(T_0, 5)"]);
    p.analyze();
    p.move_through();
    assert_eq!(p.dump(), "y = sub_i(3, 5)\n");
    assert_eq!(compile(&["y = gt_i(x, 2147483647)"]), "y = gt_i(x, C_i_2147483647)\n");
}

#[test]
fn the_whole_pipeline_lifts_then_lowers_what_is_left() {
    assert_eq!(
        compile(&["T_0 = mul_f(1.0, x)", "T_1 = div_f(T_0, 4.0)", "y = add_f(T_1, 0.1)"]),
        "y = muladd_f(x, C_f_0_25, C_f_0_1)\n"
    );
}

#[test]
fn the_whole_pipeline_lowers_floats_when_no_name_is_left() {
    let mut lines = names(32);
    lines.push("y0 = mul_f(v0, 2.5)".to_string());
    lines.push("y1 = add_f(v1, 2.5)".to_string());
    let refs: Vec<&str> = lines.iter().map(|s| s.as_str()).collect();
    let out = compile(&refs);
    let got: Vec<&str> = out.lines().collect();
    assert_eq!(got.len(), 4);
    assert_eq!(got[0], "T_f_2_5 = lu_imm(131328)");
    assert_eq!(got[2], "y0 = mul_f(v0, T_f_2_5)");
    assert_eq!(got[3], "y1 = add_f(v1, T_f_2_5)");
}
