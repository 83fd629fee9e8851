use econocode::ast::{CmpOp, Expr, Type};
use econocode::interpreter::{ExecError, Interpreter};
use econocode::ir::{render_program, BinOp, CmpIR, Instr};
use econocode::lower::{estimate_energy, Lower};

fn lit(v: i64) -> Box<Expr> {
    Box::new(Expr::Int(v, Type::I64))
}

fn var(n: &str) -> Box<Expr> {
    Box::new(Expr::Var(n.to_string(), Type::I64))
}

fn texts(code: &Vec<Instr>) -> Vec<String> {
    code.iter().map(|i| i.to_text()).collect()
}

fn run(code: &Vec<Instr>, inputs: &[&str]) -> Result<i64, ExecError> {
    let lines: Vec<String> = inputs.iter().map(|s| s.to_string()).collect();
    Interpreter::new().execute(code, &lines, 10_000)
}

fn countdown(start: i64) -> Expr {
    Expr::Block(vec![
        Expr::Assign("x".to_string(), lit(start), Type::I64),
        Expr::While {
            cond: Box::new(Expr::Cmp(CmpOp::Gt, var("x"), lit(0))),
            body: vec![Expr::Assign("x".to_string(), Box::new(Expr::Sub(var("x"), lit(1))), Type::I64)],
        },
    ])
}

#[test]
fn literal_lowers_to_one_load_const() {
    for ty in [Type::I32, Type::I64] {
        let mut l = Lower::new();
        let r = l.lower_expr(&Expr::Int(-17, ty));
        assert_eq!(r, "t0");
        assert_eq!(l.code.len(), 1);
        assert!(matches!(&l.code[0], Instr::LoadConst(-17, d, t) if d == "t0" && *t == ty));
        assert_eq!(l.code[0].energy_cost(), 1);
        assert_eq!(estimate_energy(&l.code), 1);
    }
}

#[test]
fn conditional_layout() {
    let e = Expr::IfElse {
        cond: var("x"),
        then_branch: vec![*var("y")],
        else_branch: Some(vec![*var("z")]),
    };
    let mut l = Lower::new();
    let r = l.lower_expr(&e);
    assert_eq!(r, "t0");
    assert_eq!(
        texts(&l.code),
        vec![
            "t0 = x",
            "br_if t0, then_0, else_1",
            "else_1:",
            "t1 = z",
            "jmp endif_2",
            "then_0:",
            "t2 = y",
            "jmp endif_2",
            "endif_2:",
        ]
    );
}

#[test]
fn conditional_without_else() {
    let e = Expr::IfElse { cond: var("c"), then_branch: vec![*lit(1)], else_branch: None };
    let mut l = Lower::new();
    l.lower_expr(&e);
    assert_eq!(
        texts(&l.code),
        vec!["t0 = c", "br_if t0, then_0, else_1", "else_1:", "jmp endif_2", "then_0:", "t1 = const 1", "jmp endif_2", "endif_2:"]
    );
}

#[test]
fn loop_layout() {
    let mut l = Lower::new();
    let r = l.lower_expr(&countdown(10));
    assert_eq!(r, "t3");
    assert_eq!(
        texts(&l.code),
        vec![
            "t0 = const 10",
            "x = t0",
            "while_head_0:",
            "t1 = x",
            "t2 = const 0",
            "t3 = cmpgt t1, t2",
            "br_if t3, while_body_1, while_end_2",
            "while_body_1:",
            "t4 = x",
            "t5 = const 1",
            "t6 = sub t4, t5 (I64)",
            "x = t6",
            "jmp while_head_0",
            "while_end_2:",
        ][..]
    );
}

#[test]
fn division_by_zero_fails() {
    let code = vec![
        Instr::LoadConst(7, "a".to_string(), Type::I64),
        Instr::LoadConst(0, "b".to_string(), Type::I64),
        Instr::BinOp(BinOp::Div(Type::I64), "a".to_string(), "b".to_string(), "d".to_string()),
    ];
    assert_eq!(run(&code, &[]), Err(ExecError::DivisionByZero));
    let e = Expr::Div(lit(5), Box::new(Expr::Sub(lit(2), lit(2))));
    let mut l = Lower::new();
    l.lower_expr(&e);
    assert_eq!(run(&l.code, &[]), Err(ExecError::DivisionByZero));
}

#[test]
fn static_energy_ignores_trip_count() {
    let mut l = Lower::new();
    l.lower_expr(&countdown(5));
    let sum: u32 = l.code.iter().map(|i| i.energy_cost()).sum();
    // const 1 + move 5 + label 0 + move 5 + const 1 + cmp 1 + br_if 1 + label 0
    // + move 5 + const 1 + sub 1 + move 5 + jmp 1 + label 0
    assert_eq!(sum, 27);
    assert_eq!(estimate_energy(&l.code), 27);
    assert_eq!(run(&l.code, &[]), Ok(0));
    let mut once = Lower::new();
    once.lower_expr(&countdown(1));
    assert_eq!(estimate_energy(&once.code), 27);
}

#[test]
fn energy_table() {
    let s = |x: &str| x.to_string();
    let cases: Vec<(Instr, u32)> = vec![
        (Instr::LoadConst(1, s("a"), Type::I32), 1),
        (Instr::LoadConst(1, s("a"), Type::I64), 1),
        (Instr::Move(s("a"), s("b"), Type::I32), 4),
        (Instr::Move(s("a"), s("b"), Type::I64), 5),
        (Instr::BinOp(BinOp::Add(Type::I32), s("a"), s("b"), s("c")), 1),
        (Instr::BinOp(BinOp::Sub(Type::I64), s("a"), s("b"), s("c")), 1),
        (Instr::BinOp(BinOp::Mul(Type::I32), s("a"), s("b"), s("c")), 3),
        (Instr::BinOp(BinOp::Mul(Type::I64), s("a"), s("b"), s("c")), 5),
        (Instr::BinOp(BinOp::Div(Type::I32), s("a"), s("b"), s("c")), 20),
        (Instr::BinOp(BinOp::Div(Type::I64), s("a"), s("b"), s("c")), 40),
        (Instr::Cmp(CmpIR::Le, s("a"), s("b"), s("c")), 1),
        (Instr::Read(s("a"), Type::I64), 50),
        (Instr::Label(s("l")), 0),
        (Instr::BrIf(s("a"), s("l"), s("m")), 1),
        (Instr::Jmp(s("l")), 1),
    ];
    let mut total = 0;
    for (i, c) in &cases {
        assert_eq!(i.energy_cost(), *c);
        total += c;
    }
    let prog: Vec<Instr> = cases.into_iter().map(|(i, _)| i).collect();
    assert_eq!(estimate_energy(&prog), total);
    assert_eq!(total, 134);
}

#[test]
fn end_to_end_arithmetic() {
    let e = Expr::Mul(Box::new(Expr::Add(lit(3), lit(4))), lit(2));
    let mut l = Lower::new();
    let r = l.lower_expr(&e);
    assert_eq!(l.code.len(), 5);
    assert_eq!(
        texts(&l.code),
        vec!["t0 = const 3", "t1 = const 4", "t2 = add t0, t1 (I64)", "t3 = const 2", "t4 = mul t2, t3 (I64)"]
    );
    assert_eq!(r, "t4");
    assert_eq!(run(&l.code, &[]), Ok(14));
}

#[test]
fn end_to_end_countdown() {
    let mut l = Lower::new();
    l.lower_expr(&countdown(10));
    assert_eq!(run(&l.code, &[]), Ok(0));
}

#[test]
fn width_comes_from_left_operand() {
    let e = Expr::Mul(Box::new(Expr::Int(6, Type::I32)), lit(7));
    let mut l = Lower::new();
    l.lower_expr(&e);
    assert_eq!(l.code[2].to_text(), "t2 = mul t0, t1 (I32)");
    assert_eq!(estimate_energy(&l.code), 5);
    assert_eq!(run(&l.code, &[]), Ok(42));
}

#[test]
fn text_has_one_line_per_instruction() {
    let mut l = Lower::new();
    l.lower_expr(&countdown(3));
    let text = render_program(&l.code);
    assert_eq!(text.lines().count(), l.code.len());
    assert_eq!(text.matches('\n').count(), l.code.len());
    assert!(text.contains("while_end_2:\n"));
    assert_eq!(Instr::Label("while_end_2".to_string()).energy_cost(), 0);
    assert_eq!(render_program(&vec![]), "");
}

#[test]
fn text_forms() {
    let s = |x: &str| x.to_string();
    assert_eq!(Instr::LoadConst(-9223372036854775808, s("t9"), Type::I64).to_text(), "t9 = const -9223372036854775808");
    assert_eq!(Instr::LoadConst(120, s("t10"), Type::I32).to_text(), "t10 = const 120");
    assert_eq!(Instr::Cmp(CmpIR::Ne, s("a"), s("b"), s("c")).to_text(), "c = cmpne a, b");
    assert_eq!(Instr::BinOp(BinOp::Div(Type::I32), s("a"), s("b"), s("c")).to_text(), "c = div a, b (I32)");
    assert_eq!(Instr::Read(s("n"), Type::I32).to_text(), "n = read (I32)");
    assert_eq!(Instr::BrIf(s("c"), s("l1"), s("l2")).to_text(), "br_if c, l1, l2");
    assert_eq!(Instr::Jmp(s("l1")).to_text(), "jmp l1");
}

#[test]
fn counters_keep_growing_across_calls() {
    let mut l = Lower::new();
    assert_eq!(l.lower_expr(&Expr::Int(1, Type::I64)), "t0");
    assert_eq!(l.lower_expr(&Expr::Read("n".to_string(), Type::I64)), "n");
    assert_eq!(l.lower_expr(&Expr::Int(2, Type::I64)), "t1");
    assert_eq!(l.lower_expr(&Expr::Block(vec![])), "");
    assert_eq!(l.code.len(), 3);
    assert_eq!(texts(l.instructions()), vec!["t0 = const 1", "n = read (I64)", "t1 = const 2"]);
}

#[test]
fn nested_lowering_defines_each_label_once() {
    let e = Expr::Block(vec![
        countdown(2),
        Expr::IfElse {
            cond: Box::new(Expr::Cmp(CmpOp::Eq, var("x"), lit(0))),
            then_branch: vec![countdown(1)],
            else_branch: Some(vec![Expr::IfElse { cond: var("x"), then_branch: vec![], else_branch: None }]),
        },
    ]);
    let mut l = Lower::new();
    l.lower_expr(&e);
    let labels: Vec<&String> = l.code.iter().filter_map(|i| match i { Instr::Label(n) => Some(n), _ => None }).collect();
    for (k, a) in labels.iter().enumerate() {
        assert!(labels[k + 1..].iter().all(|b| b != a));
    }
    for i in &l.code {
        match i {
            Instr::BrIf(_, t, e) => assert!(labels.contains(&t) && labels.contains(&e)),
            Instr::Jmp(t) => assert!(labels.contains(&t)),
            _ => {}
        }
    }
    assert_eq!(labels.len(), 12);
    assert_eq!(run(&l.code, &[]), Ok(0));
}
