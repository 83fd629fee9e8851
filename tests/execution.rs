use econocode::ast::Type;
use econocode::input::{parse_int_text, trim_line};
use econocode::interpreter::{ExecError, Interpreter};
use econocode::ir::{BinOp, CmpIR, Instr};

fn s(x: &str) -> String {
    x.to_string()
}

fn run(code: &Vec<Instr>, inputs: &[&str], fuel: u64) -> Result<i64, ExecError> {
    let lines: Vec<String> = inputs.iter().map(|x| x.to_string()).collect();
    Interpreter::new().execute(code, &lines, fuel)
}

#[test]
fn read_takes_trimmed_lines_in_order() {
    let code = vec![
        Instr::Read(s("a"), Type::I64),
        Instr::Read(s("b"), Type::I64),
        Instr::BinOp(BinOp::Sub(Type::I64), s("a"), s("b"), s("d")),
    ];
    assert_eq!(run(&code, &["  42 \n", "+7"], 100), Ok(35));
    assert_eq!(run(&code, &["1", "x1"], 100), Err(ExecError::InputParseError(s("x1"))));
    assert_eq!(run(&code, &["1"], 100), Err(ExecError::InputParseError(s(""))));
}

#[test]
fn read_trims_unicode_whitespace() {
    let code = vec![Instr::Read(s("n"), Type::I64)];
    assert_eq!(run(&code, &["\u{a0}5"], 100), Ok(5));
    assert_eq!(run(&code, &["\u{3000}\u{2028}-12\u{85}\u{200a}\u{b}"], 100), Ok(-12));
    assert_eq!(run(&code, &["\u{200b}7"], 100), Err(ExecError::InputParseError(s("\u{200b}7"))));
    assert_eq!(trim_line("\u{1680}\u{202f}x\u{205f}\u{2029}"), "x");
}

#[test]
fn undefined_variable() {
    let code = vec![Instr::Move(s("nope"), s("t0"), Type::I64)];
    assert_eq!(run(&code, &[], 100), Err(ExecError::UndefinedVariable(s("nope"))));
    let code = vec![Instr::BrIf(s("c"), s("a"), s("b"))];
    assert_eq!(run(&code, &[], 100), Err(ExecError::UndefinedVariable(s("c"))));
}

#[test]
fn unknown_label() {
    let code = vec![Instr::LoadConst(1, s("c"), Type::I64), Instr::BrIf(s("c"), s("yes"), s("no")), Instr::Label(s("no"))];
    assert_eq!(run(&code, &[], 100), Err(ExecError::UnknownLabel(s("yes"))));
    let code = vec![Instr::LoadConst(0, s("c"), Type::I64), Instr::BrIf(s("c"), s("yes"), s("no")), Instr::Label(s("no"))];
    assert_eq!(run(&code, &[], 100), Ok(0));
    assert_eq!(run(&vec![Instr::Jmp(s("gone"))], &[], 100), Err(ExecError::UnknownLabel(s("gone"))));
}

#[test]
fn no_instructions() {
    assert_eq!(run(&vec![], &[], 100), Err(ExecError::NoInstructions));
    assert_eq!(run(&vec![Instr::Label(s("a"))], &[], 100), Err(ExecError::NoInstructions));
}

#[test]
fn duplicate_label() {
    let code = vec![Instr::Label(s("a")), Instr::Label(s("b")), Instr::Label(s("a"))];
    assert_eq!(run(&code, &[], 100), Err(ExecError::DuplicateLabel(s("a"))));
}

#[test]
fn step_limit() {
    let code = vec![Instr::Label(s("top")), Instr::Jmp(s("top"))];
    assert_eq!(run(&code, &[], 50), Err(ExecError::StepLimit));
    let code = vec![Instr::LoadConst(3, s("a"), Type::I64)];
    assert_eq!(run(&code, &[], 0), Err(ExecError::StepLimit));
    assert_eq!(run(&code, &[], 1), Ok(3));
}

#[test]
fn overflow() {
    let code = vec![
        Instr::LoadConst(i64::MAX, s("a"), Type::I64),
        Instr::LoadConst(1, s("b"), Type::I64),
        Instr::BinOp(BinOp::Add(Type::I64), s("a"), s("b"), s("c")),
    ];
    assert_eq!(run(&code, &[], 100), Err(ExecError::Overflow));
    let code = vec![
        Instr::LoadConst(i64::MIN, s("a"), Type::I64),
        Instr::LoadConst(-1, s("b"), Type::I64),
        Instr::BinOp(BinOp::Div(Type::I64), s("a"), s("b"), s("c")),
    ];
    assert_eq!(run(&code, &[], 100), Err(ExecError::Overflow));
}

#[test]
fn arithmetic_and_comparisons() {
    let bin = |op: BinOp, a: i64, b: i64| {
        let code = vec![
            Instr::LoadConst(a, s("a"), Type::I64),
            Instr::LoadConst(b, s("b"), Type::I64),
            Instr::BinOp(op, s("a"), s("b"), s("c")),
        ];
        run(&code, &[], 100)
    };
    assert_eq!(bin(BinOp::Add(Type::I32), 2, 3), Ok(5));
    assert_eq!(bin(BinOp::Sub(Type::I32), 2, 3), Ok(-1));
    assert_eq!(bin(BinOp::Mul(Type::I64), -4, 3), Ok(-12));
    assert_eq!(bin(BinOp::Div(Type::I64), -7, 2), Ok(-3));
    let cmp = |op: CmpIR, a: i64, b: i64| {
        let code = vec![
            Instr::LoadConst(a, s("a"), Type::I64),
            Instr::LoadConst(b, s("b"), Type::I64),
            Instr::Cmp(op, s("a"), s("b"), s("c")),
        ];
        run(&code, &[], 100)
    };
    assert_eq!(cmp(CmpIR::Eq, 2, 2), Ok(1));
    assert_eq!(cmp(CmpIR::Ne, 2, 2), Ok(0));
    assert_eq!(cmp(CmpIR::Lt, 1, 2), Ok(1));
    assert_eq!(cmp(CmpIR::Le, 3, 2), Ok(0));
    assert_eq!(cmp(CmpIR::Gt, 3, 2), Ok(1));
    assert_eq!(cmp(CmpIR::Ge, 2, 2), Ok(1));
}

#[test]
fn last_write_wins_inside_loop() {
    // the branch tests x itself, so the final test writes nothing: the last
    // write is y in the final pass through the body
    let code = vec![
        Instr::LoadConst(3, s("x"), Type::I64),
        Instr::LoadConst(1, s("one"), Type::I64),
        Instr::Label(s("head")),
        Instr::BrIf(s("x"), s("body"), s("end")),
        Instr::Label(s("body")),
        Instr::BinOp(BinOp::Sub(Type::I64), s("x"), s("one"), s("x")),
        Instr::BinOp(BinOp::Add(Type::I64), s("x"), s("one"), s("y")),
        Instr::Jmp(s("head")),
        Instr::Label(s("end")),
    ];
    assert_eq!(run(&code, &[], 1000), Ok(1));
}

#[test]
fn interpreter_starts_fresh_each_time() {
    let mut it = Interpreter::new();
    let first = vec![Instr::LoadConst(5, s("a"), Type::I64)];
    assert_eq!(it.execute(&first, &vec![], 10), Ok(5));
    let second = vec![Instr::Move(s("a"), s("b"), Type::I64)];
    assert_eq!(it.execute(&second, &vec![], 10), Err(ExecError::UndefinedVariable(s("a"))));
}

#[test]
fn stepping_by_hand() {
    let code = vec![Instr::Read(s("n"), Type::I64), Instr::LoadConst(2, s("k"), Type::I64), Instr::BinOp(BinOp::Mul(Type::I64), s("n"), s("k"), s("r"))];
    let mut it = Interpreter::new();
    assert_eq!(it.start(&code), Ok(()));
    assert_eq!(it.pending_read(&code), Some(s("n")));
    assert_eq!(it.step(&code, " 21 "), Ok(()));
    assert_eq!(it.pending_read(&code), None);
    while it.is_running(&code) {
        assert_eq!(it.step(&code, ""), Ok(()));
    }
    assert_eq!(it.result(), Ok(42));
}

#[test]
fn trimming_and_parsing() {
    assert_eq!(trim_line(" \t 12 \r\n"), "12");
    assert_eq!(trim_line("   "), "");
    assert_eq!(parse_int_text("0"), Some(0));
    assert_eq!(parse_int_text("-0"), Some(0));
    assert_eq!(parse_int_text("+15"), Some(15));
    assert_eq!(parse_int_text("9223372036854775807"), Some(i64::MAX));
    assert_eq!(parse_int_text("-9223372036854775808"), Some(i64::MIN));
    assert_eq!(parse_int_text("9223372036854775808"), None);
    assert_eq!(parse_int_text("99999999999999999999999"), None);
    assert_eq!(parse_int_text(""), None);
    assert_eq!(parse_int_text("-"), None);
    assert_eq!(parse_int_text("1 2"), None);
    assert_eq!(parse_int_text("12a"), None);
}
