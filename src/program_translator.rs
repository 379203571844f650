use vstd::prelude::*;
use crate::boat_instructions::{
    code_view, dec, decimal_text, lemma_code_view_push, lemma_code_view_update, ArgV, BoatArg,
    BoatCmd, BoatIns, InsV,
};
use crate::boat_program::{names_view, Block, BoatExpr, FunV, Function, Functions, Program, Statement};
use crate::expr_translator::{
    compile_expr, const_ins, fits, literal_return, pair_ins, return_name, translate_expr,
    CompileError, CompileErrorV,
};

verus! {

broadcast use vstd::std_specs::vec::group_vec_axioms;

/// A function table's value.
pub type Table = Seq<(Seq<char>, FunV)>;

/// The jump `g <target>`.
pub open spec fn goto_ins(target: int) -> InsV {
    InsV { cmd: BoatCmd::Goto, args: seq![ArgV::Const(dec(target as nat))] }
}

/// The branch `c <cond> <target>`: jump when `cond` is `0`.
pub open spec fn cmp_ins(cond: ArgV, target: int) -> InsV {
    InsV { cmd: BoatCmd::Cmp, args: seq![cond, ArgV::Const(dec(target as nat))] }
}

/// The jump back from a function body, to the address held in `return`.
pub open spec fn return_jump() -> InsV {
    InsV { cmd: BoatCmd::Goto, args: seq![ArgV::FromKVS(return_name())] }
}

/// The code of a statement whose first instruction stands at address
/// `idx`, and the function table after it.
pub open spec fn compile_stmt(s: Statement, idx: int, t: Table) -> Result<(Seq<InsV>, Table), CompileErrorV>
    decreases s, 2int,
{
    match s {
        Statement::Assign { var_name, expr } => match compile_expr(expr, idx, t) {
            Err(e) => Err(e),
            Ok((c, a)) => Ok(
                (c.push(InsV { cmd: BoatCmd::KVSet, args: seq![ArgV::Const(var_name@), a] }), t),
            ),
        },
        Statement::Reassign { var_name, expr } => match compile_expr(expr, idx, t) {
            Err(e) => Err(e),
            Ok((c, a)) => Ok(
                (c.push(InsV { cmd: BoatCmd::KVReSet, args: seq![ArgV::Const(var_name@), a] }), t),
            ),
        },
        Statement::If { .. } => compile_if(s, idx, t),
        Statement::While { expr, block } => if !fits(idx) {
            Err(CompileErrorV::TooLarge)
        } else {
            match compile_expr(expr, idx, t) {
                Err(e) => Err(e),
                Ok((c, a)) => {
                    let p = idx + c.len();
                    match compile_block(block@, p + 1, t) {
                        Err(e) => Err(e),
                        Ok((cb, t1)) => {
                            let exit = p + 1 + cb.len() + 1;
                            if !fits(exit) {
                                Err(CompileErrorV::TooLarge)
                            } else {
                                Ok((c + seq![cmp_ins(a, exit)] + cb + seq![goto_ins(idx)], t1))
                            }
                        },
                    }
                },
            }
        },
        Statement::Return(expr) => match compile_expr(expr, idx, t) {
            Err(e) => Err(e),
            Ok((c, a)) => if a is FromStack {
                Ok((c, t))
            } else {
                Ok((c.push(InsV { cmd: BoatCmd::Push, args: seq![a] }), t))
            },
        },
        Statement::Expr(expr) => match compile_expr(expr, idx, t) {
            Err(e) => Err(e),
            Ok((c, a)) => Ok((c, t)),
        },
        Statement::FunctionDefinition { name, arg_names, block } => {
            let begin = idx + 1;
            if !fits(begin) {
                Err(CompileErrorV::TooLarge)
            } else {
                let t1 = t.push(
                    (name@, FunV::InProgram { begin_pos: begin, arg_names: names_view(arg_names@) }),
                );
                match compile_block(block@, begin, t1) {
                    Err(e) => Err(e),
                    Ok((cb, t2)) => {
                        let end = begin + cb.len() + 1;
                        if !fits(end) {
                            Err(CompileErrorV::TooLarge)
                        } else {
                            Ok((seq![goto_ins(end)] + cb + seq![return_jump()], t2))
                        }
                    },
                }
            }
        },
    }
}

/// The code of an `if`: the condition, then its branches.
pub open spec fn compile_if(s: Statement, idx: int, t: Table) -> Result<(Seq<InsV>, Table), CompileErrorV>
    decreases s, 1int,
{
    match s {
        Statement::If { expr, .. } => match compile_expr(expr, idx, t) {
            Err(e) => Err(e),
            Ok((c, a)) => match compile_branches(s, a, idx + c.len(), t) {
                Err(e) => Err(e),
                Ok((cb, t1)) => Ok((c + cb, t1)),
            },
        },
        _ => Err(CompileErrorV::TooLarge),
    }
}

/// The branches of an `if` whose condition is held in `a`, from address
/// `p` on: a branch over the `then` block when `a` is `0`, the `then`
/// block, and for an `else` block a jump over it followed by the block.
pub open spec fn compile_branches(s: Statement, a: ArgV, p: int, t: Table) -> Result<(Seq<InsV>, Table), CompileErrorV>
    decreases s, 0int,
{
    match s {
        Statement::If { block, else_block, .. } => match compile_block(block@, p + 1, t) {
            Err(e) => Err(e),
            Ok((cb, t1)) => {
                let after_then = p + 1 + cb.len();
                match else_block {
                    None => if !fits(after_then) {
                        Err(CompileErrorV::TooLarge)
                    } else {
                        Ok((seq![cmp_ins(a, after_then)] + cb, t1))
                    },
                    Some(eb) => {
                        let q = after_then + 1;
                        if !fits(q) {
                            Err(CompileErrorV::TooLarge)
                        } else {
                            match compile_block(eb@, q, t1) {
                                Err(e) => Err(e),
                                Ok((ce, t2)) => {
                                    let end = q + ce.len();
                                    if !fits(end) {
                                        Err(CompileErrorV::TooLarge)
                                    } else {
                                        Ok((seq![cmp_ins(a, q)] + cb + seq![goto_ins(end)] + ce, t2))
                                    }
                                },
                            }
                        }
                    },
                }
            },
        },
        _ => Err(CompileErrorV::TooLarge),
    }
}

/// The code of a block whose first instruction stands at address `idx`,
/// and the function table after it: its statements' code, back to back.
pub open spec fn compile_block(b: Seq<Statement>, idx: int, t: Table) -> Result<(Seq<InsV>, Table), CompileErrorV>
    decreases b, 0int,
{
    if b.len() == 0 {
        Ok((Seq::empty(), t))
    } else {
        match compile_block(b.drop_last(), idx, t) {
            Err(e) => Err(e),
            Ok((c1, t1)) => match compile_stmt(b.last(), idx + c1.len(), t1) {
                Err(e) => Err(e),
                Ok((c2, t2)) => Ok((c1 + c2, t2)),
            },
        }
    }
}

/// What translating a statement or block into `out` must leave behind.
pub open spec fn block_outcome(
    res: Result<(Seq<InsV>, Table), CompileErrorV>,
    before: Seq<BoatIns>,
    after: Seq<BoatIns>,
    t_after: Table,
    r: Result<(), CompileError>,
) -> bool {
    match res {
        Ok((c, t2)) => r is Ok && code_view(after) == code_view(before) + c && t_after == t2,
        Err(err) => r is Err && r->Err_0@ == err,
    }
}

/// Once a prefix of a block fails to compile, the block does.
pub proof fn lemma_block_err(b: Seq<Statement>, k: int, idx: int, t: Table)
    requires
        0 <= k <= b.len(),
        compile_block(b.subrange(0, k), idx, t) is Err,
    ensures
        compile_block(b, idx, t) == compile_block(b.subrange(0, k), idx, t),
    decreases b.len() - k,
{
    if k < b.len() {
        assert(b.subrange(0, k + 1).drop_last() =~= b.subrange(0, k));
        lemma_block_err(b, k + 1, idx, t);
    } else {
        assert(b.subrange(0, k) =~= b);
    }
}

fn patch(instructions: &mut Vec<BoatIns>, k: usize, ins: BoatIns)
    requires
        k < old(instructions)@.len(),
    ensures
        final(instructions)@ == old(instructions)@.update(k as int, ins),
{
    instructions[k] = ins;
}

/// An instruction whose slot is reserved and filled in once its target is
/// known.
fn placeholder() -> (r: BoatIns) {
    BoatIns { cmd: BoatCmd::Goto, args: Vec::new() }
}

/// Appends the code of a statement to `instructions`, extending
/// `functions` with the functions it defines.
fn translate_statement(s: &Statement, instructions: &mut Vec<BoatIns>, functions: &mut Functions) -> (r:
    Result<(), CompileError>)
    ensures
        block_outcome(
            compile_stmt(*s, old(instructions)@.len() + 1int, old(functions)@),
            old(instructions)@,
            final(instructions)@,
            final(functions)@,
            r,
        ),
    decreases s, 3int,
{
    let ghost start = instructions@;
    let ghost t = functions@;
    match s {
        Statement::Assign { var_name, expr } | Statement::Reassign { var_name, expr } => {
            let arg = match translate_expr(expr, instructions, functions) {
                Err(e) => {
                    return Err(e);
                },
                Ok(a) => a,
            };
            let cmd = if matches!(s, Statement::Assign { .. }) { BoatCmd::KVSet } else { BoatCmd::KVReSet };
            let ins = pair_ins(cmd, BoatArg::Const(var_name.clone()), arg);
            let ghost mid = instructions@;
            proof {
                lemma_code_view_push(instructions@, ins);
            }
            instructions.push(ins);
            proof {
                let c = compile_expr(*expr, start.len() + 1int, t)->Ok_0.0;
                assert(code_view(mid) == code_view(start) + c);
                assert(code_view(instructions@) =~= code_view(start) + c.push(ins@));
            }
            Ok(())
        },
        Statement::Return(expr) => {
            let arg = match translate_expr(expr, instructions, functions) {
                Err(e) => {
                    return Err(e);
                },
                Ok(a) => a,
            };
            if !matches!(arg, BoatArg::FromStack) {
                let ghost mid = instructions@;
                let ins = BoatIns { cmd: BoatCmd::Push, args: vec![arg] };
                proof {
                    assert(ins@.args =~= seq![arg@]);
                    lemma_code_view_push(instructions@, ins);
                }
                instructions.push(ins);
                proof {
                    let c = compile_expr(*expr, start.len() + 1int, t)->Ok_0.0;
                    assert(code_view(instructions@) =~= code_view(start) + c.push(ins@));
                }
            }
            Ok(())
        },
        Statement::Expr(expr) => {
            match translate_expr(expr, instructions, functions) {
                Err(e) => Err(e),
                Ok(_) => Ok(()),
            }
        },
        Statement::If { expr, block, else_block } => translate_if(s, expr, block, else_block, instructions, functions),
        Statement::While { expr, block } => translate_while(expr, block, instructions, functions),
        Statement::FunctionDefinition { name, arg_names, block } => translate_function_definition(
            name,
            arg_names,
            block,
            instructions,
            functions,
        ),
    }
}

/// Appends the code of `s`, the statement `if (expr) block else else_block`.
#[verifier::rlimit(60)]
fn translate_if(
    s: &Statement,
    expr: &BoatExpr,
    block: &Block,
    else_block: &Option<Block>,
    instructions: &mut Vec<BoatIns>,
    functions: &mut Functions,
) -> (r: Result<(), CompileError>)
    requires
        *s == (Statement::If { expr: *expr, block: *block, else_block: *else_block }),
    ensures
        block_outcome(
            compile_if(*s, old(instructions)@.len() + 1int, old(functions)@),
            old(instructions)@,
            final(instructions)@,
            final(functions)@,
            r,
        ),
    decreases s, 2int,
{
    let ghost start = instructions@;
    let ghost t = functions@;
    let arg = match translate_expr(expr, instructions, functions) {
        Err(e) => {
            return Err(e);
        },
        Ok(a) => a,
    };
    let ghost c = compile_expr(*expr, start.len() + 1int, t)->Ok_0.0;
    let ghost mid = instructions@;
    proof {
        assert(code_view(mid).len() == mid.len());
    }
    let r = translate_branches(s, block, else_block, arg, instructions, functions);
    proof {
        if r is Ok {
            let cb = compile_branches(*s, arg@, mid.len() + 1int, t)->Ok_0.0;
            assert(code_view(instructions@) =~= code_view(start) + (c + cb));
        }
    }
    r
}

/// Appends the branches of `s`, an `if` whose condition is held in `arg`.
#[verifier::rlimit(100)]
fn translate_branches(
    s: &Statement,
    block: &Block,
    else_block: &Option<Block>,
    arg: BoatArg,
    instructions: &mut Vec<BoatIns>,
    functions: &mut Functions,
) -> (r: Result<(), CompileError>)
    requires
        s is If,
        s->If_block == *block,
        s->If_else_block == *else_block,
    ensures
        block_outcome(
            compile_branches(*s, arg@, old(instructions)@.len() + 1int, old(functions)@),
            old(instructions)@,
            final(instructions)@,
            final(functions)@,
            r,
        ),
    decreases s, 1int,
{
    let ghost start = instructions@;
    let ghost t = functions@;
    let ghost p = start.len() + 1int;
    let ghost av = arg@;
    let k = instructions.len();
    let ghost before_cmp = instructions@;
    let ph = placeholder();
    proof {
        lemma_code_view_push(instructions@, ph);
    }
    instructions.push(ph);
    let ghost after_cmp = instructions@;
    proof {
        assert(code_view(before_cmp).len() == before_cmp.len());
        assert(after_cmp.len() + 1 == p + 1);
        assert(decreases_to!(*s => *block));
    }
    match translate_block(block, instructions, functions) {
        Err(e) => {
            return Err(e);
        },
        Ok(()) => {},
    }
    let ghost cb = compile_block(block@, p + 1, t)->Ok_0.0;
    let ghost t1 = functions@;
    proof {
        assert(code_view(instructions@).len() == instructions@.len());
        assert(code_view(after_cmp).len() == after_cmp.len());
    }
    match else_block {
        None => {
            if instructions.len() == usize::MAX {
                return Err(CompileError::TooLarge);
            }
            let target = instructions.len() + 1;
            let ins = pair_ins(BoatCmd::Cmp, arg, BoatArg::Const(decimal_text(target as u64)));
            let ghost pre = instructions@;
            proof {
                lemma_code_view_update(instructions@, k as int, ins);
            }
            patch(instructions, k, ins);
            proof {
                assert(code_view(pre) == code_view(start) + seq![ph@] + cb);
                assert(ins@ == cmp_ins(arg@, target as int));
                assert(code_view(instructions@) =~= code_view(start) + (seq![cmp_ins(av, target as int)] + cb));
            }
            Ok(())
        },
        Some(eb) => {
            let j = instructions.len();
            let ph2 = placeholder();
            proof {
                lemma_code_view_push(instructions@, ph2);
            }
            instructions.push(ph2);
            if instructions.len() == usize::MAX {
                return Err(CompileError::TooLarge);
            }
            let q = instructions.len() + 1;
            let ghost before_else = instructions@;
            proof {
                assert(decreases_to!(*s => *else_block));
                assert(decreases_to!(*else_block => *eb));
            }
            match translate_block(eb, instructions, functions) {
                Err(e) => {
                    return Err(e);
                },
                Ok(()) => {},
            }
            let ghost ce = compile_block(eb@, q as int, t1)->Ok_0.0;
            proof {
                assert(code_view(instructions@).len() == instructions@.len());
                assert(code_view(before_else).len() == before_else.len());
            }
            if instructions.len() == usize::MAX {
                return Err(CompileError::TooLarge);
            }
            let end = instructions.len() + 1;
            let g = const_ins(BoatCmd::Goto, decimal_text(end as u64));
            let ghost pre = instructions@;
            proof {
                lemma_code_view_update(instructions@, j as int, g);
            }
            patch(instructions, j, g);
            let ins = pair_ins(BoatCmd::Cmp, arg, BoatArg::Const(decimal_text(q as u64)));
            proof {
                lemma_code_view_update(instructions@, k as int, ins);
            }
            patch(instructions, k, ins);
            proof {
                assert(code_view(pre) == code_view(start) + seq![ph@] + cb + seq![ph2@] + ce);
                assert(code_view(instructions@) =~= code_view(start) + (seq![cmp_ins(av, q as int)] + cb + seq![goto_ins(end as int)] + ce));
            }
            Ok(())
        },
    }
}

#[verifier::rlimit(100)]
fn translate_while(expr: &BoatExpr, block: &Block, instructions: &mut Vec<BoatIns>, functions: &mut Functions) -> (r:
    Result<(), CompileError>)
    ensures
        block_outcome(
            compile_stmt(Statement::While { expr: *expr, block: *block }, old(instructions)@.len() + 1int, old(functions)@),
            old(instructions)@,
            final(instructions)@,
            final(functions)@,
            r,
        ),
    decreases block, 1int,
{
    let ghost start = instructions@;
    let ghost t = functions@;
    if instructions.len() == usize::MAX {
        return Err(CompileError::TooLarge);
    }
    let loop_start = instructions.len() + 1;
    let arg = match translate_expr(expr, instructions, functions) {
        Err(e) => {
            return Err(e);
        },
        Ok(a) => a,
    };
    let ghost c = compile_expr(*expr, start.len() + 1int, t)->Ok_0.0;
    let ghost p = start.len() + 1int + c.len();
    let k = instructions.len();
    let ph = placeholder();
    proof {
        assert(code_view(instructions@).len() == instructions@.len());
        lemma_code_view_push(instructions@, ph);
    }
    instructions.push(ph);
    let ghost after_cmp = instructions@;
    proof {
        assert(code_view(after_cmp).len() == after_cmp.len());
    }
    match translate_block(block, instructions, functions) {
        Err(e) => {
            return Err(e);
        },
        Ok(()) => {},
    }
    let ghost cb = compile_block(block@, p + 1, t)->Ok_0.0;
    proof {
        assert(code_view(instructions@).len() == instructions@.len());
    }
    let back = const_ins(BoatCmd::Goto, decimal_text(loop_start as u64));
    proof {
        lemma_code_view_push(instructions@, back);
    }
    instructions.push(back);
    if instructions.len() == usize::MAX {
        return Err(CompileError::TooLarge);
    }
    let exit = instructions.len() + 1;
    let ins = pair_ins(BoatCmd::Cmp, arg, BoatArg::Const(decimal_text(exit as u64)));
    let ghost pre = instructions@;
    proof {
        lemma_code_view_update(instructions@, k as int, ins);
    }
    patch(instructions, k, ins);
    proof {
        assert(code_view(pre) == code_view(start) + c + seq![ph@] + cb + seq![back@]);
        assert(code_view(instructions@) =~= code_view(start) + (c + seq![cmp_ins(arg@, exit as int)] + cb + seq![goto_ins(loop_start as int)]));
    }
    Ok(())
}

fn translate_function_definition(
    name: &String,
    arg_names: &Vec<String>,
    block: &Block,
    instructions: &mut Vec<BoatIns>,
    functions: &mut Functions,
) -> (r: Result<(), CompileError>)
    ensures
        block_outcome(
            compile_stmt(Statement::FunctionDefinition { name: *name, arg_names: *arg_names, block: *block }, old(instructions)@.len() + 1int, old(functions)@),
            old(instructions)@,
            final(instructions)@,
            final(functions)@,
            r,
        ),
    decreases block, 1int,
{
    let ghost start = instructions@;
    let ghost t = functions@;
    let k = instructions.len();
    let ph = placeholder();
    proof {
        lemma_code_view_push(instructions@, ph);
    }
    instructions.push(ph);
    if instructions.len() == usize::MAX {
        return Err(CompileError::TooLarge);
    }
    let begin = instructions.len() + 1;
    let ghost before_body = instructions@;
    proof {
        assert(code_view(before_body).len() == before_body.len());
    }
    let params = copy_names(arg_names);
    functions.insert(name.clone(), Function::InProgram { begin_pos: begin, arg_names: params });
    let ghost t1 = functions@;
    match translate_block(block, instructions, functions) {
        Err(e) => {
            return Err(e);
        },
        Ok(()) => {},
    }
    let ghost cb = compile_block(block@, begin as int, t1)->Ok_0.0;
    proof {
        assert(code_view(instructions@).len() == instructions@.len());
    }
    let back = BoatIns { cmd: BoatCmd::Goto, args: vec![BoatArg::FromKVS(literal_return())] };
    proof {
        assert(back@.args =~= return_jump().args);
        lemma_code_view_push(instructions@, back);
    }
    instructions.push(back);
    if instructions.len() == usize::MAX {
        return Err(CompileError::TooLarge);
    }
    let end = instructions.len() + 1;
    let g = const_ins(BoatCmd::Goto, decimal_text(end as u64));
    let ghost pre = instructions@;
    proof {
        lemma_code_view_update(instructions@, k as int, g);
    }
    patch(instructions, k, g);
    proof {
        assert(code_view(pre) == code_view(start) + seq![ph@] + cb + seq![back@]);
        assert(code_view(instructions@) =~= code_view(start) + (seq![goto_ins(end as int)] + cb + seq![return_jump()]));
    }
    Ok(())
}

fn copy_names(v: &Vec<String>) -> (r: Vec<String>)
    ensures
        names_view(r@) == names_view(v@),
{
    let mut r: Vec<String> = Vec::new();
    let mut i: usize = 0;
    while i < v.len()
        invariant
            i <= v@.len(),
            r@.len() == i,
            forall|j: int| 0 <= j < i ==> r@[j]@ == v@[j]@,
        decreases v@.len() - i,
    {
        r.push(v[i].clone());
        i = i + 1;
    }
    proof {
        assert(names_view(r@) =~= names_view(v@));
    }
    r
}

/// Appends the code of a block to `instructions`, extending `functions`
/// with the functions it defines.
pub fn translate_block(block: &Block, instructions: &mut Vec<BoatIns>, functions: &mut Functions) -> (r:
    Result<(), CompileError>)
    ensures
        block_outcome(
            compile_block(block@, old(instructions)@.len() + 1int, old(functions)@),
            old(instructions)@,
            final(instructions)@,
            final(functions)@,
            r,
        ),
    decreases block, 0int,
{
    let ghost start = instructions@;
    let ghost t = functions@;
    let ghost idx = start.len() + 1int;
    let ghost mut emitted: Seq<InsV> = Seq::empty();
    let mut i: usize = 0;
    proof {
        assert(block@.subrange(0, 0) =~= Seq::<Statement>::empty());
        assert(code_view(instructions@) =~= code_view(start) + emitted);
    }
    while i < block.len()
        invariant
            i <= block@.len(),
            start == old(instructions)@,
            t == old(functions)@,
            idx == start.len() + 1,
            compile_block(block@.subrange(0, i as int), idx, t) == Ok::<(Seq<InsV>, Table), CompileErrorV>((emitted, functions@)),
            code_view(instructions@) == code_view(start) + emitted,
            instructions@.len() == start.len() + emitted.len(),
        decreases block@.len() - i,
    {
        let ghost before = instructions@;
        let ghost tb = functions@;
        proof {
            assert(block@.subrange(0, i + 1).drop_last() =~= block@.subrange(0, i as int));
            assert(block@.subrange(0, i + 1).last() == block@[i as int]);
            assert(decreases_to!(*block => block[i as int]));
        }
        match translate_statement(&block[i], instructions, functions) {
            Err(e) => {
                proof {
                    lemma_block_err(block@, i + 1, idx, t);
                }
                return Err(e);
            },
            Ok(()) => {},
        }
        proof {
            let c2 = compile_stmt(block@[i as int], before.len() + 1int, tb)->Ok_0.0;
            emitted = emitted + c2;
            assert(code_view(instructions@) =~= code_view(start) + emitted);
            assert(code_view(instructions@).len() == instructions@.len());
        }
        i = i + 1;
    }
    proof {
        assert(block@.subrange(0, i as int) =~= block@);
    }
    Ok(())
}

/// The bytecode of a program, with its first instruction at address 1.
pub fn translate_program(program: Program) -> (r: Result<Vec<BoatIns>, CompileError>)
    ensures
        match compile_block(program.block@, 1, program.functions@) {
            Ok((c, _)) => r is Ok && code_view(r->Ok_0@) == c,
            Err(err) => r is Err && r->Err_0@ == err,
        },
{
    let Program { functions, block } = program;
    let mut functions = functions;
    let mut instructions: Vec<BoatIns> = Vec::new();
    proof {
        assert(code_view(instructions@) =~= Seq::<InsV>::empty());
    }
    match translate_block(&block, &mut instructions, &mut functions) {
        Err(e) => Err(e),
        Ok(()) => {
            proof {
                assert(code_view(instructions@) =~= compile_block(block@, 1, program.functions@)->Ok_0.0);
            }
            Ok(instructions)
        },
    }
}

} // verus!
