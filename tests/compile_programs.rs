use boat_lang_core::bytecode_reader::parse_annotated;
use boat_lang_core::generated_code::labeled_lines;
use boat_lang_core::boat_instructions::{translated_to_string, translated_to_string2, BoatArg, BoatCmd, BoatIns};
use boat_lang_core::boat_program::{BoatExpr, BoatOp, Function, Lowering, Statement};
use boat_lang_core::expr_translator::{lower, CompileError};
use boat_lang_core::program_optimizer::optimize_reassigns;
use boat_lang_core::program_parser::{parse_program, PinDefinition, PinType};
use boat_lang_core::program_translator::translate_program;

fn val(s: &str) -> BoatExpr {
    BoatExpr::Value(s.to_string())
}

fn var(s: &str) -> BoatExpr {
    BoatExpr::Var(s.to_string())
}

fn bin(lhs: BoatExpr, op: BoatOp, rhs: BoatExpr) -> BoatExpr {
    BoatExpr::BinOp { lhs: Box::new(lhs), op, rhs: Box::new(rhs) }
}

fn call(name: &str, args: Vec<BoatExpr>) -> BoatExpr {
    BoatExpr::Function { name: name.to_string(), args }
}

fn assign(name: &str, expr: BoatExpr) -> Statement {
    Statement::Assign { var_name: name.to_string(), expr }
}

fn compile_text(block: Vec<Statement>) -> String {
    let mut program = parse_program(vec![], block);
    optimize_reassigns(&mut program);
    translated_to_string(translate_program(program).unwrap())
}

fn loop_program() -> Vec<Statement> {
    vec![
        assign("a", val("0")),
        Statement::While {
            expr: bin(var("a"), BoatOp::Lt, val("3")),
            block: vec![assign("a", bin(var("a"), BoatOp::Add, val("1")))],
        },
        Statement::Expr(call("out", vec![val("1"), var("a")])),
    ]
}

#[test]
fn assignments_compile_to_stores() {
    assert_eq!(compile_text(vec![assign("a", val("1")), assign("a", val("2"))]), "ka a 1;kr a 2;");
}

#[test]
fn straight_line_length_counts_expressions_and_stores() {
    let block = vec![
        assign("a", val("1")),
        assign("b", bin(var("a"), BoatOp::Add, val("2"))),
        assign("c", bin(bin(var("a"), BoatOp::Mul, var("b")), BoatOp::Sub, val("1"))),
    ];
    let program = parse_program(vec![], block);
    let code = translate_program(program).unwrap();
    // (0 + 1) + (1 + 1) + (2 + 1)
    assert_eq!(code.len(), 6);
}

#[test]
fn while_loop_bytecode() {
    assert_eq!(
        compile_text(loop_program()),
        "ka a 0;< $a 3;c $ 7;+ $a 1;kr a $;g 2;o 1 $a;"
    );
}

#[test]
fn if_else_bytecode() {
    let block = vec![
        assign("a", val("5")),
        Statement::If {
            expr: bin(var("a"), BoatOp::Gt, val("3")),
            block: vec![Statement::Expr(call("out", vec![val("1"), val("big")]))],
            else_block: Some(vec![Statement::Expr(call("out", vec![val("1"), val("small")]))]),
        },
    ];
    assert_eq!(compile_text(block), "ka a 5;> $a 3;c $ 6;o 1 big;g 7;o 1 small;");
}

#[test]
fn function_call_bytecode() {
    let block = vec![
        Statement::FunctionDefinition {
            name: "f".to_string(),
            arg_names: vec!["x".to_string()],
            block: vec![Statement::Return(bin(var("x"), BoatOp::Add, val("1")))],
        },
        Statement::Expr(call("out", vec![val("1"), call("f", vec![val("4")])])),
    ];
    assert_eq!(
        compile_text(block),
        "g 4;+ $x 1;g $return;ka x 4;ka return 7;g 2;kd return;kd x;o 1 $;"
    );
}

#[test]
fn return_of_a_plain_value_pushes_it() {
    let block = vec![Statement::FunctionDefinition {
        name: "k".to_string(),
        arg_names: vec![],
        block: vec![Statement::Return(val("7"))],
    }];
    assert_eq!(compile_text(block), "g 4;p 7;g $return;");
}

#[test]
fn jump_targets_stay_in_range() {
    let program = parse_program(vec![], loop_program());
    let code = translate_program(program).unwrap();
    let len = code.len();
    for ins in &code {
        let target = match (&ins.cmd, ins.args.as_slice()) {
            (BoatCmd::Goto, [BoatArg::Const(t)]) => Some(t.clone()),
            (BoatCmd::Cmp, [_, BoatArg::Const(t)]) => Some(t.clone()),
            _ => None,
        };
        if let Some(t) = target {
            let t: usize = t.parse().unwrap();
            assert!(1 <= t && t <= len + 1);
        }
    }
}

#[test]
fn resume_addresses_name_instructions() {
    let block = vec![
        Statement::FunctionDefinition {
            name: "f".to_string(),
            arg_names: vec!["x".to_string()],
            block: vec![Statement::Return(bin(var("x"), BoatOp::Add, val("1")))],
        },
        Statement::Expr(call("out", vec![val("1"), call("f", vec![val("4")])])),
    ];
    let code = translate_program(parse_program(vec![], block)).unwrap();
    let mut seen = 0;
    for ins in &code {
        if let (BoatCmd::KVSet, [BoatArg::Const(n), BoatArg::Const(a)]) = (&ins.cmd, ins.args.as_slice()) {
            if n == "return" {
                let a: usize = a.parse().unwrap();
                assert!(1 <= a && a <= code.len());
                assert_eq!(code[a - 1].cmd, BoatCmd::KVDel);
                seen += 1;
            }
        }
    }
    assert_eq!(seen, 1);
}

#[test]
fn compiling_twice_gives_the_same_code() {
    let first = translate_program(parse_program(vec![], loop_program())).unwrap();
    let second = translate_program(parse_program(vec![], loop_program())).unwrap();
    assert_eq!(first, second);
}

#[test]
fn call_of_undefined_function_fails() {
    let program = parse_program(vec![], vec![Statement::Expr(call("nope", vec![val("1")]))]);
    assert_eq!(translate_program(program), Err(CompileError::UndefinedFunction("nope".to_string())));
}

#[test]
fn pins_lower_to_numbered_io() {
    let defs = vec![
        PinDefinition { name: "button".to_string(), pin: PinType::In(3) },
        PinDefinition { name: "led".to_string(), pin: PinType::Out(12) },
    ];
    let program = parse_program(
        defs,
        vec![assign("b", call("button", vec![])), Statement::Expr(call("led", vec![var("b")]))],
    );
    assert_eq!(translated_to_string(translate_program(program).unwrap()), "i 3 60;ka b $;o 12 $b;");
}

#[test]
fn table_binds_pins_then_builtins() {
    let defs = vec![PinDefinition { name: "out".to_string(), pin: PinType::Out(9) }];
    let program = parse_program(defs, vec![]);
    let names: Vec<&str> = program.functions.entries.iter().map(|e| e.0.as_str()).collect();
    assert_eq!(names, vec!["out", "sleep", "display", "dclear", "out", "in"]);
    assert!(matches!(
        program.functions.get(&"out".to_string()),
        Some(Function::Predefined { translator: Lowering::Command(BoatCmd::Output) })
    ));
}

#[test]
fn input_pin_with_argument_keeps_it() {
    let ins = lower(Lowering::InputPin(4), vec![BoatArg::Const("10".to_string())]);
    assert_eq!(ins.to_string(), "i 4 10");
    let out = lower(Lowering::Command(BoatCmd::Sleep), vec![BoatArg::Const("1".to_string())]);
    assert_eq!(out.to_string(), "s 1");
}

#[test]
fn optimizer_scopes_parameters_to_the_body() {
    let mut program = parse_program(
        vec![],
        vec![
            Statement::FunctionDefinition {
                name: "f".to_string(),
                arg_names: vec!["x".to_string()],
                block: vec![assign("x", val("1")), assign("y", val("2"))],
            },
            assign("x", val("3")),
            assign("y", val("4")),
            Statement::If {
                expr: val("1"),
                block: vec![assign("z", val("5"))],
                else_block: Some(vec![assign("z", val("6"))]),
            },
            assign("z", val("7")),
        ],
    );
    optimize_reassigns(&mut program);
    match &program.block[0] {
        Statement::FunctionDefinition { block, .. } => {
            assert!(matches!(block[0], Statement::Reassign { .. }));
            assert!(matches!(block[1], Statement::Assign { .. }));
        }
        _ => panic!("expected a definition"),
    }
    assert!(matches!(program.block[1], Statement::Assign { .. }));
    assert!(matches!(program.block[2], Statement::Reassign { .. }));
    match &program.block[3] {
        Statement::If { block, else_block, .. } => {
            assert!(matches!(block[0], Statement::Assign { .. }));
            assert!(matches!(else_block.as_ref().unwrap()[0], Statement::Reassign { .. }));
        }
        _ => panic!("expected an if"),
    }
    assert!(matches!(program.block[4], Statement::Reassign { .. }));
}

#[test]
fn compiled_program_reads_back_from_its_listing() {
    let code = translate_program(parse_program(vec![], loop_program())).unwrap();
    let text = translated_to_string2(code.clone(), false);
    assert_eq!(parse_annotated(&text), Some(code));
}

#[test]
fn labeled_lines_are_the_jump_targets() {
    let code = translate_program(parse_program(vec![], loop_program())).unwrap();
    assert_eq!(labeled_lines(&code), vec![7, 2]);
}
