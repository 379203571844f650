use boat_lang_core::boat_instructions::{BoatArg, BoatCmd, BoatIns};
use boat_lang_core::boat_program::{BoatExpr, BoatOp, Statement};
use boat_lang_core::interpreter::{Effect, Machine, RunError};
use boat_lang_core::program_optimizer::optimize_reassigns;
use boat_lang_core::program_parser::parse_program;
use boat_lang_core::program_translator::translate_program;

fn val(s: &str) -> BoatExpr {
    BoatExpr::Value(s.to_string())
}

fn var(s: &str) -> BoatExpr {
    BoatExpr::Var(s.to_string())
}

fn bin(lhs: BoatExpr, op: BoatOp, rhs: BoatExpr) -> BoatExpr {
    BoatExpr::BinOp { lhs: Box::new(lhs), op, rhs: Box::new(rhs) }
}

fn call(name: &str, args: Vec<BoatExpr>) -> BoatExpr {
    BoatExpr::Function { name: name.to_string(), args }
}

fn assign(name: &str, expr: BoatExpr) -> Statement {
    Statement::Assign { var_name: name.to_string(), expr }
}

fn compile(block: Vec<Statement>) -> Vec<BoatIns> {
    let mut program = parse_program(vec![], block);
    optimize_reassigns(&mut program);
    translate_program(program).unwrap()
}

fn compute(cmd: BoatCmd, a: &str, b: &str) -> String {
    let x: f32 = a.trim().parse().unwrap();
    let y: f32 = b.trim().parse().unwrap();
    match cmd {
        BoatCmd::Add => (x + y).to_string(),
        BoatCmd::Sub => (x - y).to_string(),
        BoatCmd::Mul => (x * y).to_string(),
        BoatCmd::Div => (x / y).to_string(),
        BoatCmd::Gt => ((x > y) as usize as f32).to_string(),
        BoatCmd::Lt => ((x < y) as usize as f32).to_string(),
        _ => panic!("not a numeric opcode"),
    }
}

struct Run {
    output: Vec<String>,
    machine: Machine,
    result: Result<(), RunError>,
    computes: Vec<BoatCmd>,
}

fn run(code: &Vec<BoatIns>, inputs: &[&str]) -> Run {
    let mut machine = Machine::new();
    let mut output = Vec::new();
    let mut inputs = inputs.iter();
    let mut computes = Vec::new();
    loop {
        match machine.step(code) {
            Ok(Effect::Halt) => return Run { output, machine, result: Ok(()), computes },
            Ok(Effect::Continue) => {}
            Ok(Effect::Input) => {
                let line = inputs.next().copied().unwrap_or("");
                machine.deliver(line.trim().to_string());
            }
            Ok(Effect::Output { pin, value }) => output.push(format!("{pin} <- {value}")),
            Ok(Effect::Compute { cmd, lhs, rhs }) => {
                computes.push(cmd.clone());
                machine.deliver(compute(cmd, &lhs, &rhs));
            }
            Ok(Effect::Sleep(_)) | Ok(Effect::Display { .. }) | Ok(Effect::DisplayClear) => {}
            Err(e) => return Run { output, machine, result: Err(e), computes },
        }
    }
}

#[test]
fn second_assignment_becomes_reassignment() {
    let mut program = parse_program(vec![], vec![assign("a", val("1")), assign("a", val("2"))]);
    optimize_reassigns(&mut program);
    assert!(matches!(program.block[0], Statement::Assign { .. }));
    assert!(matches!(program.block[1], Statement::Reassign { .. }));
    let code = translate_program(program).unwrap();
    let r = run(&code, &[]);
    assert_eq!(r.result, Ok(()));
    let a = "a".to_string();
    assert_eq!(r.machine.variable_depth(&a), 1);
    assert_eq!(r.machine.variable(&a), Some("2".to_string()));
}

#[test]
fn while_loop_runs_body_three_times() {
    let code = compile(vec![
        assign("a", val("0")),
        Statement::While {
            expr: bin(var("a"), BoatOp::Lt, val("3")),
            block: vec![assign("a", bin(var("a"), BoatOp::Add, val("1")))],
        },
        Statement::Expr(call("out", vec![val("1"), var("a")])),
    ]);
    let r = run(&code, &[]);
    assert_eq!(r.result, Ok(()));
    assert_eq!(r.output, vec!["1 <- 3".to_string()]);
    // the body's addition runs three times, the condition four times
    assert_eq!(r.computes.iter().filter(|c| **c == BoatCmd::Add).count(), 3);
    assert_eq!(r.computes.iter().filter(|c| **c == BoatCmd::Lt).count(), 4);
    assert_eq!(r.machine.variable_depth(&"a".to_string()), 1);
}

#[test]
fn if_else_takes_only_the_true_branch() {
    let code = compile(vec![
        assign("a", val("5")),
        Statement::If {
            expr: bin(var("a"), BoatOp::Gt, val("3")),
            block: vec![Statement::Expr(call("out", vec![val("1"), val("big")]))],
            else_block: Some(vec![Statement::Expr(call("out", vec![val("1"), val("small")]))]),
        },
    ]);
    let r = run(&code, &[]);
    assert_eq!(r.result, Ok(()));
    assert_eq!(r.output, vec!["1 <- big".to_string()]);
}

#[test]
fn if_else_takes_the_false_branch() {
    let code = compile(vec![
        assign("a", val("2")),
        Statement::If {
            expr: bin(var("a"), BoatOp::Gt, val("3")),
            block: vec![Statement::Expr(call("out", vec![val("1"), val("big")]))],
            else_block: Some(vec![Statement::Expr(call("out", vec![val("1"), val("small")]))]),
        },
    ]);
    let r = run(&code, &[]);
    assert_eq!(r.output, vec!["1 <- small".to_string()]);
}

#[test]
fn function_call_returns_and_unbinds() {
    let code = compile(vec![
        Statement::FunctionDefinition {
            name: "f".to_string(),
            arg_names: vec!["x".to_string()],
            block: vec![Statement::Return(bin(var("x"), BoatOp::Add, val("1")))],
        },
        Statement::Expr(call("out", vec![val("1"), call("f", vec![val("4")])])),
    ]);
    let r = run(&code, &[]);
    assert_eq!(r.result, Ok(()));
    assert_eq!(r.output, vec!["1 <- 5".to_string()]);
    assert_eq!(r.machine.variable_depth(&"x".to_string()), 0);
    assert_eq!(r.machine.variable_depth(&"return".to_string()), 0);
    assert_eq!(r.machine.stack_depth(), 0);
}

#[test]
fn undefined_variable_aborts_without_more_output() {
    let code = compile(vec![
        Statement::Expr(call("out", vec![val("1"), val("before")])),
        Statement::Expr(call("out", vec![val("1"), var("nope")])),
        Statement::Expr(call("out", vec![val("1"), val("after")])),
    ]);
    let r = run(&code, &[]);
    assert_eq!(r.result, Err(RunError::UndefinedVariable("nope".to_string())));
    assert_eq!(r.output, vec!["1 <- before".to_string()]);
}

#[test]
fn stack_underflow_is_reported() {
    let code = vec![BoatIns { cmd: BoatCmd::Push, args: vec![BoatArg::FromStack] }];
    let r = run(&code, &[]);
    assert_eq!(r.result, Err(RunError::StackUnderflow));
}

#[test]
fn invalid_address_is_reported() {
    let code = vec![BoatIns { cmd: BoatCmd::Goto, args: vec![BoatArg::Const("x1".to_string())] }];
    assert_eq!(run(&code, &[]).result, Err(RunError::InvalidAddress("x1".to_string())));
    let zero = vec![BoatIns { cmd: BoatCmd::Goto, args: vec![BoatArg::Const("0".to_string())] }];
    assert_eq!(run(&zero, &[]).result, Err(RunError::InvalidAddress("0".to_string())));
}

#[test]
fn missing_operand_is_reported() {
    let code = vec![BoatIns { cmd: BoatCmd::Output, args: vec![BoatArg::Const("1".to_string())] }];
    assert_eq!(run(&code, &[]).result, Err(RunError::MissingOperand));
}

#[test]
fn jump_past_the_end_halts() {
    let code = vec![
        BoatIns { cmd: BoatCmd::Goto, args: vec![BoatArg::Const("3".to_string())] },
        BoatIns { cmd: BoatCmd::Output, args: vec![BoatArg::Const("1".to_string()), BoatArg::Const("x".to_string())] },
    ];
    let r = run(&code, &[]);
    assert_eq!(r.result, Ok(()));
    assert!(r.output.is_empty());
    assert_eq!(r.machine.ip(), 3);
}

#[test]
fn cmp_jumps_only_on_token_zero() {
    let code = vec![
        BoatIns { cmd: BoatCmd::Cmp, args: vec![BoatArg::Const("0.0".to_string()), BoatArg::Const("3".to_string())] },
        BoatIns { cmd: BoatCmd::Output, args: vec![BoatArg::Const("1".to_string()), BoatArg::Const("a".to_string())] },
        BoatIns { cmd: BoatCmd::Cmp, args: vec![BoatArg::Const("0".to_string()), BoatArg::Const("5".to_string())] },
        BoatIns { cmd: BoatCmd::Output, args: vec![BoatArg::Const("1".to_string()), BoatArg::Const("b".to_string())] },
        BoatIns { cmd: BoatCmd::Output, args: vec![BoatArg::Const("1".to_string()), BoatArg::Const("c".to_string())] },
    ];
    let r = run(&code, &[]);
    assert_eq!(r.output, vec!["1 <- a".to_string(), "1 <- c".to_string()]);
}

#[test]
fn eq_compares_text_verbatim() {
    let code = compile(vec![
        Statement::Expr(call("out", vec![val("1"), bin(val("1"), BoatOp::Eq, val("1.0"))])),
        Statement::Expr(call("out", vec![val("1"), bin(val("x"), BoatOp::Eq, val("x"))])),
        Statement::Expr(call("out", vec![val("1"), bin(val("a"), BoatOp::Conc, val("b"))])),
    ]);
    let r = run(&code, &[]);
    assert_eq!(r.output, vec!["1 <- 0".to_string(), "1 <- 1".to_string(), "1 <- ab".to_string()]);
}

#[test]
fn input_is_read_and_pushed() {
    let code = compile(vec![
        assign("n", call("in", vec![])),
        Statement::Expr(call("out", vec![val("2"), bin(var("n"), BoatOp::Mul, val("2"))])),
    ]);
    let r = run(&code, &["21\n"]);
    assert_eq!(r.output, vec!["2 <- 42".to_string()]);
}

#[test]
fn sub_and_div_keep_operand_order() {
    let code = compile(vec![
        Statement::Expr(call("out", vec![val("1"), bin(val("10"), BoatOp::Sub, val("4"))])),
        Statement::Expr(call("out", vec![val("1"), bin(bin(val("9"), BoatOp::Sub, val("1")), BoatOp::Div, bin(val("1"), BoatOp::Add, val("1")))])),
    ]);
    let r = run(&code, &[]);
    assert_eq!(r.output, vec!["1 <- 6".to_string(), "1 <- 4".to_string()]);
}

#[test]
fn delete_of_unbound_variable_does_nothing() {
    let code = vec![
        BoatIns { cmd: BoatCmd::KVDel, args: vec![BoatArg::Const("z".to_string())] },
        BoatIns { cmd: BoatCmd::KVReSet, args: vec![BoatArg::Const("z".to_string()), BoatArg::Const("7".to_string())] },
    ];
    let r = run(&code, &[]);
    assert_eq!(r.result, Ok(()));
    assert_eq!(r.machine.variable_depth(&"z".to_string()), 1);
    assert_eq!(r.machine.variable(&"z".to_string()), Some("7".to_string()));
}

#[test]
fn recursive_function_shadows_parameters() {
    // f(n) { if (n > 0) { out(1, n); f(n - 1); } }
    let code = compile(vec![
        Statement::FunctionDefinition {
            name: "f".to_string(),
            arg_names: vec!["n".to_string()],
            block: vec![Statement::If {
                expr: bin(var("n"), BoatOp::Gt, val("0")),
                block: vec![
                    Statement::Expr(call("out", vec![val("1"), var("n")])),
                    Statement::Expr(call("f", vec![bin(var("n"), BoatOp::Sub, val("1"))])),
                ],
                else_block: None,
            }],
        },
        Statement::Expr(call("f", vec![val("2")])),
    ]);
    let r = run(&code, &[]);
    assert_eq!(r.result, Ok(()));
    assert_eq!(r.output, vec!["1 <- 2".to_string(), "1 <- 1".to_string()]);
    assert_eq!(r.machine.variable_depth(&"n".to_string()), 0);
}
