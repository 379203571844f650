use vstd::prelude::*;
use vstd::string::StringExecFns;
use crate::boat_instructions::{
    args_view, code_view, dec, decimal_text, lemma_code_view_push, ArgV, BoatArg, BoatCmd, BoatIns,
    InsV,
};
use crate::boat_program::{lookup, names_view, BoatExpr, BoatOp, FunV, Function, Functions, Lowering};

verus! {

broadcast use vstd::std_specs::vec::group_vec_axioms;

/// Why code generation stopped.
#[derive(Debug, Clone, PartialEq, Eq)]
pub enum CompileError {
    /// A call names a function that is not in the table.
    UndefinedFunction(String),
    /// An address would not fit in a `usize`.
    TooLarge,
}

/// The value of a compile error.
pub enum CompileErrorV {
    UndefinedFunction(Seq<char>),
    TooLarge,
}

impl View for CompileError {
    type V = CompileErrorV;

    open spec fn view(&self) -> CompileErrorV {
        match self {
            CompileError::UndefinedFunction(n) => CompileErrorV::UndefinedFunction(n@),
            CompileError::TooLarge => CompileErrorV::TooLarge,
        }
    }
}

/// The opcode of a binary operator.
pub open spec fn op_cmd(op: BoatOp) -> BoatCmd {
    match op {
        BoatOp::Add => BoatCmd::Add,
        BoatOp::Sub => BoatCmd::Sub,
        BoatOp::Mul => BoatCmd::Mul,
        BoatOp::Div => BoatCmd::Div,
        BoatOp::Conc => BoatCmd::Conc,
        BoatOp::Lt => BoatCmd::Lt,
        BoatOp::Gt => BoatCmd::Gt,
        BoatOp::Eq => BoatCmd::Eq,
    }
}

impl From<BoatOp> for BoatCmd {
    fn from(val: BoatOp) -> (r: BoatCmd) {
        match val {
            BoatOp::Add => BoatCmd::Add,
            BoatOp::Sub => BoatCmd::Sub,
            BoatOp::Mul => BoatCmd::Mul,
            BoatOp::Div => BoatCmd::Div,
            BoatOp::Conc => BoatCmd::Conc,
            BoatOp::Lt => BoatCmd::Lt,
            BoatOp::Gt => BoatCmd::Gt,
            BoatOp::Eq => BoatCmd::Eq,
        }
    }
}

impl vstd::std_specs::convert::FromSpecImpl<BoatOp> for BoatCmd {
    open spec fn obeys_from_spec() -> bool {
        true
    }

    open spec fn from_spec(v: BoatOp) -> BoatCmd {
        op_cmd(v)
    }
}

/// The text `return`, the variable that holds a call's resume address.
pub open spec fn return_name() -> Seq<char> {
    seq!['r', 'e', 't', 'u', 'r', 'n']
}

/// The text `60`, the default argument of an input pin.
pub open spec fn default_input_arg() -> Seq<char> {
    seq!['6', '0']
}

/// The instruction a built-in call lowers to, given its operands in order.
pub open spec fn lower_spec(l: Lowering, args: Seq<ArgV>) -> InsV {
    match l {
        Lowering::Command(c) => InsV { cmd: c, args },
        Lowering::InputPin(n) => InsV {
            cmd: BoatCmd::Input,
            args: if args.len() == 0 {
                seq![ArgV::Const(dec(n as nat)), ArgV::Const(default_input_arg())]
            } else {
                seq![ArgV::Const(dec(n as nat))] + args
            },
        },
        Lowering::OutputPin(n) => InsV {
            cmd: BoatCmd::Output,
            args: seq![ArgV::Const(dec(n as nat))] + args,
        },
    }
}

/// The code of a call of a function of the program: bind each parameter
/// to its argument, bind `return` to the resume address `ret`, jump to
/// `begin`, and on return pop `return` and every parameter.
pub open spec fn call_code(args: Seq<ArgV>, params: Seq<Seq<char>>, ret: int, begin: int) -> Seq<InsV> {
    let m = if args.len() < params.len() { args.len() } else { params.len() };
    Seq::new(m, |j: int| InsV { cmd: BoatCmd::KVSet, args: seq![ArgV::Const(params[j]), args[j]] })
        + seq![
        InsV {
            cmd: BoatCmd::KVSet,
            args: seq![ArgV::Const(return_name()), ArgV::Const(dec(ret as nat))],
        },
        InsV { cmd: BoatCmd::Goto, args: seq![ArgV::Const(dec(begin as nat))] },
        InsV { cmd: BoatCmd::KVDel, args: seq![ArgV::Const(return_name())] },
    ] + Seq::new(params.len(), |j: int| InsV { cmd: BoatCmd::KVDel, args: seq![ArgV::Const(params[j])] })
}

/// Whether address `a` can be written.
pub open spec fn fits(a: int) -> bool {
    a <= usize::MAX
}

/// The code of an expression whose first instruction stands at address
/// `idx`, with the operand that holds its value.
pub open spec fn compile_expr(e: BoatExpr, idx: int, t: Seq<(Seq<char>, FunV)>) -> Result<
    (Seq<InsV>, ArgV),
    CompileErrorV,
>
    decreases e,
{
    match e {
        BoatExpr::Value(v) => Ok((Seq::empty(), ArgV::Const(v@))),
        BoatExpr::Var(n) => Ok((Seq::empty(), ArgV::FromKVS(n@))),
        BoatExpr::Function { name, args } => match lookup(t, name@) {
            None => Err(CompileErrorV::UndefinedFunction(name@)),
            Some(f) => match compile_args(args@, idx, t) {
                Err(err) => Err(err),
                Ok((c, refs)) => match f {
                    FunV::Predefined { translator } => Ok(
                        (c.push(lower_spec(translator, refs)), ArgV::FromStack),
                    ),
                    FunV::InProgram { begin_pos, arg_names } => {
                        let m = if refs.len() < arg_names.len() {
                            refs.len()
                        } else {
                            arg_names.len()
                        };
                        let ret = idx + c.len() + m + 2;
                        if !fits(ret) {
                            Err(CompileErrorV::TooLarge)
                        } else {
                            Ok((c + call_code(refs, arg_names, ret, begin_pos), ArgV::FromStack))
                        }
                    },
                },
            },
        },
        BoatExpr::BinOp { lhs, op, rhs } => match compile_expr(*rhs, idx, t) {
            Err(err) => Err(err),
            Ok((cr, ar)) => match compile_expr(*lhs, idx + cr.len(), t) {
                Err(err) => Err(err),
                Ok((cl, al)) => Ok(
                    (cr + cl + seq![InsV { cmd: op_cmd(op), args: seq![al, ar] }], ArgV::FromStack),
                ),
            },
        },
    }
}

/// The code of a call's arguments, compiled from the last to the first,
/// with their operands in declared order.
pub open spec fn compile_args(s: Seq<BoatExpr>, idx: int, t: Seq<(Seq<char>, FunV)>) -> Result<
    (Seq<InsV>, Seq<ArgV>),
    CompileErrorV,
>
    decreases s,
{
    if s.len() == 0 {
        Ok((Seq::empty(), Seq::empty()))
    } else {
        match compile_args(s.skip(1), idx, t) {
            Err(err) => Err(err),
            Ok((c1, r1)) => match compile_expr(s[0], idx + c1.len(), t) {
                Err(err) => Err(err),
                Ok((c0, a0)) => Ok((c1 + c0, seq![a0] + r1)),
            },
        }
    }
}

/// Once the arguments from `k` on fail to compile, all of them do.
pub proof fn lemma_args_err(s: Seq<BoatExpr>, k: int, idx: int, t: Seq<(Seq<char>, FunV)>)
    requires
        0 <= k <= s.len(),
        compile_args(s.subrange(k, s.len() as int), idx, t) is Err,
    ensures
        compile_args(s, idx, t) == compile_args(s.subrange(k, s.len() as int), idx, t),
    decreases k,
{
    if k > 0 {
        let sub = s.subrange(k - 1, s.len() as int);
        assert(sub.skip(1) =~= s.subrange(k, s.len() as int));
        lemma_args_err(s, k - 1, idx, t);
    } else {
        assert(s.subrange(0, s.len() as int) =~= s);
    }
}

/// What translating an expression into `out` must leave behind.
pub open spec fn expr_outcome(
    e: BoatExpr,
    t: Seq<(Seq<char>, FunV)>,
    before: Seq<BoatIns>,
    after: Seq<BoatIns>,
    r: Result<BoatArg, CompileError>,
) -> bool {
    match compile_expr(e, before.len() + 1int, t) {
        Ok((c, a)) => r is Ok && r->Ok_0@ == a && code_view(after) == code_view(before) + c,
        Err(err) => r is Err && r->Err_0@ == err,
    }
}

fn literal_sixty() -> (r: String)
    ensures
        r@ == default_input_arg(),
{
    proof {
        reveal_strlit("60");
    }
    String::from_str("60")
}

pub(crate) fn literal_return() -> (r: String)
    ensures
        r@ == return_name(),
{
    proof {
        reveal_strlit("return");
    }
    String::from_str("return")
}

/// The instruction that a built-in call lowers to.
pub fn lower(l: Lowering, args: Vec<BoatArg>) -> (r: BoatIns)
    ensures
        r@ == lower_spec(l, args_view(args@)),
{
    match l {
        Lowering::Command(c) => BoatIns { cmd: c, args },
        Lowering::InputPin(n) => {
            let mut a = args;
            let no_args = a.len() == 0;
            let pin = BoatArg::Const(decimal_text(n as u64));
            let ghost pv = pin@;
            a.insert(0, pin);
            proof {
                assert(args_view(a@) =~= seq![pv] + args_view(args@));
            }
            if no_args {
                proof {
                    reveal_strlit("60");
                }
                let d = BoatArg::Const(literal_sixty());
                let ghost dv = d@;
                a.push(d);
                proof {
                    assert(args_view(a@) =~= seq![pv, dv]);
                    assert(dv == ArgV::Const(default_input_arg()));
                }
            }
            let r = BoatIns { cmd: BoatCmd::Input, args: a };
            proof {
                assert(pv == ArgV::Const(dec(n as nat)));
                assert(r@.args =~= lower_spec(l, args_view(args@)).args);
            }
            r
        },
        Lowering::OutputPin(n) => {
            let mut a = args;
            let pin = BoatArg::Const(decimal_text(n as u64));
            let ghost pv = pin@;
            a.insert(0, pin);
            proof {
                assert(args_view(a@) =~= seq![pv] + args_view(args@));
            }
            let r = BoatIns { cmd: BoatCmd::Output, args: a };
            proof {
                assert(pv == ArgV::Const(dec(n as nat)));
            }
            proof {
                assert(r@.args =~= lower_spec(l, args_view(args@)).args);
            }
            r
        },
    }
}

pub(crate) fn const_ins(cmd: BoatCmd, a: String) -> (r: BoatIns)
    ensures
        r@ == (InsV { cmd, args: seq![ArgV::Const(a@)] }),
{
    let r = BoatIns { cmd, args: vec![BoatArg::Const(a)] };
    proof {
        assert(r@.args =~= seq![ArgV::Const(a@)]);
    }
    r
}

pub(crate) fn pair_ins(cmd: BoatCmd, a: BoatArg, b: BoatArg) -> (r: BoatIns)
    ensures
        r@ == (InsV { cmd, args: seq![a@, b@] }),
{
    let r = BoatIns { cmd, args: vec![a, b] };
    proof {
        assert(r@.args =~= seq![a@, b@]);
    }
    r
}

/// Appends the code of a call of a function of the program.
fn emit_call(
    refs: &Vec<BoatArg>,
    begin_pos: usize,
    arg_names: &Vec<String>,
    instructions: &mut Vec<BoatIns>,
) -> (r: Result<(), CompileError>)
    ensures
        ({
            let m = if refs@.len() < arg_names@.len() { refs@.len() } else { arg_names@.len() };
            let ret = old(instructions)@.len() + 1int + m + 2;
            if !fits(ret) {
                r == Err::<(), CompileError>(CompileError::TooLarge)
            } else {
                r is Ok && code_view(final(instructions)@) == code_view(old(instructions)@)
                    + call_code(args_view(refs@), names_view(arg_names@), ret, begin_pos as int)
            }
        }),
{
    let ghost start = code_view(instructions@);
    let ghost params = names_view(arg_names@);
    let ghost av = args_view(refs@);
    let m = if refs.len() < arg_names.len() { refs.len() } else { arg_names.len() };
    let ghost set_code = Seq::new(
        m as nat,
        |j: int| InsV { cmd: BoatCmd::KVSet, args: seq![ArgV::Const(params[j]), av[j]] },
    );
    if instructions.len() > usize::MAX - 3 || m > usize::MAX - 3 - instructions.len() {
        return Err(CompileError::TooLarge);
    }
    let mut j: usize = 0;
    while j < m
        invariant
            m <= refs@.len(),
            m <= arg_names@.len(),
            j <= m,
            params == names_view(arg_names@),
            av == args_view(refs@),
            code_view(instructions@) == start + set_code.subrange(0, j as int),
            set_code.len() == m,
            set_code == Seq::new(
                m as nat,
                |j: int| InsV { cmd: BoatCmd::KVSet, args: seq![ArgV::Const(params[j]), av[j]] },
            ),
        decreases m - j,
    {
        let ins = pair_ins(BoatCmd::KVSet, BoatArg::Const(arg_names[j].clone()), refs[j].duplicate());
        proof {
            lemma_code_view_push(instructions@, ins);
        }
        instructions.push(ins);
        j = j + 1;
        proof {
            assert(code_view(instructions@) =~= start + set_code.subrange(0, j as int));
        }
    }
    let ret = instructions.len() + 3;
    let ghost mid = code_view(instructions@);
    let i1 = pair_ins(BoatCmd::KVSet, BoatArg::Const(literal_return()), BoatArg::Const(decimal_text(ret as u64)));
    proof {
        lemma_code_view_push(instructions@, i1);
    }
    instructions.push(i1);
    let i2 = const_ins(BoatCmd::Goto, decimal_text(begin_pos as u64));
    proof {
        lemma_code_view_push(instructions@, i2);
    }
    instructions.push(i2);
    let i3 = const_ins(BoatCmd::KVDel, literal_return());
    proof {
        lemma_code_view_push(instructions@, i3);
    }
    instructions.push(i3);
    let ghost del_code = Seq::new(
        params.len(),
        |j: int| InsV { cmd: BoatCmd::KVDel, args: seq![ArgV::Const(params[j])] },
    );
    let ghost mid2 = code_view(instructions@);
    let mut k: usize = 0;
    while k < arg_names.len()
        invariant
            k <= arg_names@.len(),
            params == names_view(arg_names@),
            code_view(instructions@) == mid2 + del_code.subrange(0, k as int),
            del_code.len() == params.len(),
            del_code == Seq::new(
                params.len(),
                |j: int| InsV { cmd: BoatCmd::KVDel, args: seq![ArgV::Const(params[j])] },
            ),
        decreases arg_names@.len() - k,
    {
        let ins = const_ins(BoatCmd::KVDel, arg_names[k].clone());
        proof {
            lemma_code_view_push(instructions@, ins);
        }
        instructions.push(ins);
        k = k + 1;
        proof {
            assert(code_view(instructions@) =~= mid2 + del_code.subrange(0, k as int));
        }
    }
    proof {
        assert(set_code.subrange(0, m as int) =~= set_code);
        assert(del_code.subrange(0, k as int) =~= del_code);
        assert(mid == start + set_code);
        assert(mid2 =~= mid + seq![i1@, i2@, i3@]);
        assert(code_view(instructions@) =~= start + call_code(av, params, ret as int, begin_pos as int));
    }
    Ok(())
}

/// Appends the code of an expression to `instructions` and returns the
/// operand that holds its value.
pub fn translate_expr(arg: &BoatExpr, instructions: &mut Vec<BoatIns>, functions: &Functions) -> (r:
    Result<BoatArg, CompileError>)
    ensures
        expr_outcome(*arg, functions@, old(instructions)@, final(instructions)@, r),
    decreases arg,
{
    match arg {
        BoatExpr::Value(value) => Ok(BoatArg::Const(value.clone())),
        BoatExpr::Var(name) => Ok(BoatArg::FromKVS(name.clone())),
        BoatExpr::Function { name, args } => {
            let function = match functions.get(name) {
                None => {
                    return Err(CompileError::UndefinedFunction(name.clone()));
                },
                Some(f) => f,
            };
            let ghost start = instructions@;
            let ghost t = functions@;
            let ghost idx = start.len() + 1int;
            let ghost fv = lookup(t, name@)->0;
            assert(function@ == fv);
            let ghost mut emitted: Seq<InsV> = Seq::empty();
            let mut translated_args: Vec<BoatArg> = Vec::new();
            let mut i = args.len();
            proof {
                assert(decreases_to!(*arg => arg->Function_args));
                assert(args@.subrange(i as int, args@.len() as int) =~= Seq::<BoatExpr>::empty());
                assert(args_view(translated_args@) =~= Seq::<ArgV>::empty());
                assert(code_view(instructions@) =~= code_view(start) + emitted);
            }
            while i > 0
                invariant
                    i <= args@.len(),
                    t == functions@,
                    start == old(instructions)@,
                    idx == start.len() + 1,
                    compile_args(args@.subrange(i as int, args@.len() as int), idx, t) == Ok::<
                        (Seq<InsV>, Seq<ArgV>),
                        CompileErrorV,
                    >((emitted, args_view(translated_args@))),
                    code_view(instructions@) == code_view(start) + emitted,
                    instructions@.len() == start.len() + emitted.len(),
                    lookup(t, name@) is Some,
                    *arg == (BoatExpr::Function { name: *name, args: *args }),
                    decreases_to!(*arg => *args),
                decreases i,
            {
                let ghost sub = args@.subrange(i - 1, args@.len() as int);
                let ghost before = instructions@;
                proof {
                    assert(sub.skip(1) =~= args@.subrange(i as int, args@.len() as int));
                    assert(sub[0] == args@[i - 1]);
                    assert(decreases_to!(*args => args[i - 1]));
                }
                let a = translate_expr(&args[i - 1], instructions, functions);
                match a {
                    Err(e) => {
                        proof {
                            assert(before.len() + 1int == idx + emitted.len());
                            assert(compile_expr(sub[0], idx + emitted.len(), t) == Err::<(Seq<InsV>, ArgV), CompileErrorV>(e@));
                            assert(compile_args(sub, idx, t) == Err::<(Seq<InsV>, Seq<ArgV>), CompileErrorV>(e@));
                            lemma_args_err(args@, i - 1, idx, t);
                            assert(compile_args(args@, idx, t) == Err::<(Seq<InsV>, Seq<ArgV>), CompileErrorV>(e@));
                        }
                        return Err(e);
                    },
                    Ok(a) => {
                        let ghost tv = translated_args@;
                        translated_args.insert(0, a);
                        proof {
                            assert(args_view(translated_args@) =~= seq![a@] + args_view(tv));
                            let c0 = compile_expr(args@[i - 1], before.len() + 1int, t)->Ok_0.0;
                            emitted = emitted + c0;
                            assert(code_view(instructions@) =~= code_view(start) + emitted);
                            assert(code_view(instructions@).len() == instructions@.len());
                        }
                    },
                }
                i = i - 1;
            }
            proof {
                assert(args@.subrange(0, args@.len() as int) =~= args@);
                assert(compile_args(args@, idx, t) == Ok::<(Seq<InsV>, Seq<ArgV>), CompileErrorV>((emitted, args_view(translated_args@))));
            }
            match function {
                Function::Predefined { translator } => {
                    let ins = lower(*translator, translated_args);
                    proof {
                        lemma_code_view_push(instructions@, ins);
                    }
                    instructions.push(ins);
                    proof {
                        assert(code_view(instructions@) =~= code_view(start) + emitted.push(ins@));
                    }
                },
                Function::InProgram { begin_pos, arg_names } => {
                    let ghost mid = instructions@;
                    match emit_call(&translated_args, *begin_pos, arg_names, instructions) {
                        Err(e) => {
                            return Err(e);
                        },
                        Ok(()) => {},
                    }
                    proof {
                        assert(code_view(instructions@) =~= code_view(start) + (emitted + call_code(args_view(translated_args@), names_view(arg_names@), mid.len() + 1int + (if translated_args@.len() < arg_names@.len() { translated_args@.len() } else { arg_names@.len() }) + 2, *begin_pos as int)));
                    }
                },
            }
            Ok(BoatArg::FromStack)
        },
        BoatExpr::BinOp { lhs, op, rhs } => {
            let ghost start = instructions@;
            let rhs_arg = match translate_expr(rhs, instructions, functions) {
                Err(e) => {
                    return Err(e);
                },
                Ok(a) => a,
            };
            let ghost mid = instructions@;
            proof {
                assert(code_view(mid).len() == mid.len());
            }
            let lhs_arg = match translate_expr(lhs, instructions, functions) {
                Err(e) => {
                    return Err(e);
                },
                Ok(a) => a,
            };
            let ins = pair_ins(BoatCmd::from(*op), lhs_arg, rhs_arg);
            let ghost before = instructions@;
            proof {
                lemma_code_view_push(instructions@, ins);
            }
            instructions.push(ins);
            proof {
                let cr = compile_expr(**rhs, start.len() + 1int, functions@)->Ok_0.0;
                let cl = compile_expr(**lhs, mid.len() + 1int, functions@)->Ok_0.0;
                assert(code_view(before) == code_view(start) + cr + cl);
                assert(code_view(instructions@) =~= code_view(start) + (cr + cl + seq![ins@]));
            }
            Ok(BoatArg::FromStack)
        },
    }
}

} // verus!
