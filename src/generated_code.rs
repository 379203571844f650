use vstd::prelude::*;
use crate::boat_instructions::{code_view, dec, ArgV, BoatArg, BoatCmd, BoatIns, InsV};
use crate::interpreter::{parse_addr, parse_address};
use crate::boat_program::{lookup, BoatExpr, FunV, Lowering, Program, Statement};
use crate::expr_translator::{call_code, compile_args, compile_expr, lower_spec, return_name, CompileError};
use crate::program_parser::{builtin_entries, initial_table, pin_entry, PinDefinition};
use crate::program_translator::{
    compile_block, compile_branches, compile_if, compile_stmt, Table,
};

verus! {

broadcast use vstd::std_specs::vec::group_vec_axioms;

/// The number of instructions an expression compiles to.
pub open spec fn expr_size(e: BoatExpr, t: Table) -> nat
    decreases e,
{
    match e {
        BoatExpr::Value(_) | BoatExpr::Var(_) => 0,
        BoatExpr::Function { name, args } => args_size(args@, t) + match lookup(t, name@) {
            Some(FunV::InProgram { arg_names, .. }) => (if args@.len() < arg_names.len() {
                args@.len()
            } else {
                arg_names.len()
            }) + 3 + arg_names.len(),
            _ => 1,
        },
        BoatExpr::BinOp { lhs, rhs, .. } => expr_size(*lhs, t) + expr_size(*rhs, t) + 1,
    }
}

/// The number of instructions a call's arguments compile to.
pub open spec fn args_size(s: Seq<BoatExpr>, t: Table) -> nat
    decreases s,
{
    if s.len() == 0 {
        0
    } else {
        args_size(s.skip(1), t) + expr_size(s[0], t)
    }
}

/// A statement without nested blocks.
pub open spec fn is_simple(s: Statement) -> bool {
    s is Assign || s is Reassign || s is Return || s is Expr
}

/// The number of instructions a statement without nested blocks compiles
/// to: its expression's, plus one to store an assignment, plus one to push
/// a returned value that is not already on the stack.
pub open spec fn simple_size(s: Statement, t: Table) -> nat {
    match s {
        Statement::Assign { expr, .. } | Statement::Reassign { expr, .. } => expr_size(expr, t) + 1,
        Statement::Return(e) => expr_size(e, t) + if e is Value || e is Var { 1nat } else { 0nat },
        Statement::Expr(e) => expr_size(e, t),
        _ => 0,
    }
}

/// The sum of `simple_size` over a block.
pub open spec fn simple_block_size(b: Seq<Statement>, t: Table) -> nat
    decreases b.len(),
{
    if b.len() == 0 {
        0
    } else {
        simple_block_size(b.drop_last(), t) + simple_size(b.last(), t)
    }
}

/// An expression's code has `expr_size` instructions, and its value is on
/// the operand stack exactly when it is a call or an operation.
pub proof fn lemma_expr_size(e: BoatExpr, idx: int, t: Table)
    requires
        compile_expr(e, idx, t) is Ok,
    ensures
        compile_expr(e, idx, t)->Ok_0.0.len() == expr_size(e, t),
        (compile_expr(e, idx, t)->Ok_0.1 is FromStack) <==> !(e is Value || e is Var),
    decreases e,
{
    match e {
        BoatExpr::Function { name, args } => {
            lemma_args_size(args@, idx, t);
        },
        BoatExpr::BinOp { lhs, rhs, .. } => {
            lemma_expr_size(*rhs, idx, t);
            let cr = compile_expr(*rhs, idx, t)->Ok_0.0;
            lemma_expr_size(*lhs, idx + cr.len(), t);
        },
        _ => {},
    }
}

/// A call's arguments compile to `args_size` instructions and one operand
/// each.
pub proof fn lemma_args_size(s: Seq<BoatExpr>, idx: int, t: Table)
    requires
        compile_args(s, idx, t) is Ok,
    ensures
        compile_args(s, idx, t)->Ok_0.0.len() == args_size(s, t),
        compile_args(s, idx, t)->Ok_0.1.len() == s.len(),
    decreases s,
{
    if s.len() > 0 {
        lemma_args_size(s.skip(1), idx, t);
        let c1 = compile_args(s.skip(1), idx, t)->Ok_0.0;
        lemma_expr_size(s[0], idx + c1.len(), t);
    }
}

/// A block of statements without nested blocks compiles to as many
/// instructions as its expressions do, plus one for each assignment and
/// one for each return of a value not already on the stack; the function
/// table is left as it was.
pub proof fn lemma_straight_line_length(b: Seq<Statement>, idx: int, t: Table)
    requires
        forall|i: int| 0 <= i < b.len() ==> is_simple(#[trigger] b[i]),
        compile_block(b, idx, t) is Ok,
    ensures
        compile_block(b, idx, t)->Ok_0.0.len() == simple_block_size(b, t),
        compile_block(b, idx, t)->Ok_0.1 == t,
    decreases b.len(),
{
    if b.len() > 0 {
        let p = b.drop_last();
        assert forall|i: int| 0 <= i < p.len() implies is_simple(#[trigger] p[i]) by {
            assert(p[i] == b[i]);
        }
        lemma_straight_line_length(p, idx, t);
        let c1 = compile_block(p, idx, t)->Ok_0.0;
        let s = b.last();
        let at = idx + c1.len();
        assert(is_simple(b[b.len() - 1]));
        assert(compile_stmt(s, at, t) is Ok);
        match s {
            Statement::Assign { expr, .. } => {
                lemma_expr_size(expr, at, t);
            },
            Statement::Reassign { expr, .. } => {
                lemma_expr_size(expr, at, t);
            },
            Statement::Return(expr) => {
                lemma_expr_size(expr, at, t);
            },
            Statement::Expr(expr) => {
                lemma_expr_size(expr, at, t);
            },
            _ => {},
        }
    }
}

/// Every call in an expression names a built-in of the table.
pub open spec fn calls_builtins(e: BoatExpr, t: Table) -> bool
    decreases e,
{
    match e {
        BoatExpr::Value(_) | BoatExpr::Var(_) => true,
        BoatExpr::Function { name, args } => lookup(t, name@) is Some && lookup(t, name@)->0 is Predefined
            && args_call_builtins(args@, t),
        BoatExpr::BinOp { lhs, rhs, .. } => calls_builtins(*lhs, t) && calls_builtins(*rhs, t),
    }
}

/// Every call in a list of expressions names a built-in of the table.
pub open spec fn args_call_builtins(s: Seq<BoatExpr>, t: Table) -> bool
    decreases s,
{
    s.len() == 0 || (calls_builtins(s[0], t) && args_call_builtins(s.skip(1), t))
}

/// The expression of a statement without nested blocks.
pub open spec fn simple_expr(s: Statement) -> Option<BoatExpr> {
    match s {
        Statement::Assign { expr, .. } | Statement::Reassign { expr, .. } | Statement::Return(expr)
        | Statement::Expr(expr) => Some(expr),
        _ => None,
    }
}

proof fn lemma_builtin_expr_compiles(e: BoatExpr, idx: int, t: Table)
    requires
        calls_builtins(e, t),
    ensures
        compile_expr(e, idx, t) is Ok,
    decreases e,
{
    match e {
        BoatExpr::Function { name, args } => {
            lemma_builtin_args_compile(args@, idx, t);
        },
        BoatExpr::BinOp { lhs, rhs, .. } => {
            lemma_builtin_expr_compiles(*rhs, idx, t);
            let cr = compile_expr(*rhs, idx, t)->Ok_0.0;
            lemma_builtin_expr_compiles(*lhs, idx + cr.len(), t);
        },
        _ => {},
    }
}

proof fn lemma_builtin_args_compile(s: Seq<BoatExpr>, idx: int, t: Table)
    requires
        args_call_builtins(s, t),
    ensures
        compile_args(s, idx, t) is Ok,
    decreases s,
{
    if s.len() > 0 {
        lemma_builtin_args_compile(s.skip(1), idx, t);
        let c1 = compile_args(s.skip(1), idx, t)->Ok_0.0;
        lemma_builtin_expr_compiles(s[0], idx + c1.len(), t);
    }
}

/// A block of statements without nested blocks, whose calls all name
/// built-ins, always compiles; its code has as many instructions as its
/// expressions do, plus one for each assignment and one for each return of
/// a value not already on the stack.
pub proof fn lemma_straight_line_compiles(b: Seq<Statement>, idx: int, t: Table)
    requires
        forall|i: int| 0 <= i < b.len() ==> is_simple(#[trigger] b[i]),
        forall|i: int| 0 <= i < b.len() ==> calls_builtins(simple_expr(#[trigger] b[i])->0, t),
    ensures
        compile_block(b, idx, t) is Ok,
        compile_block(b, idx, t)->Ok_0.0.len() == simple_block_size(b, t),
    decreases b.len(),
{
    if b.len() > 0 {
        let p = b.drop_last();
        assert forall|i: int| 0 <= i < p.len() implies is_simple(#[trigger] p[i]) && calls_builtins(simple_expr(p[i])->0, t) by {
            assert(p[i] == b[i]);
        }
        lemma_straight_line_compiles(p, idx, t);
        lemma_straight_line_length(p, idx, t);
        let c1 = compile_block(p, idx, t)->Ok_0.0;
        let last = b.last();
        assert(is_simple(b[b.len() - 1]) && calls_builtins(simple_expr(b[b.len() - 1])->0, t));
        lemma_builtin_expr_compiles(simple_expr(last)->0, idx + c1.len(), t);
        assert(compile_stmt(last, idx + c1.len(), t) is Ok);
    }
    lemma_straight_line_length(b, idx, t);
}

/// Compiling the same program twice gives the same bytecode, or the same
/// error.
pub proof fn lemma_translate_deterministic(
    p: Program,
    r1: Result<Vec<BoatIns>, CompileError>,
    r2: Result<Vec<BoatIns>, CompileError>,
)
    requires
        program_outcome(p, r1),
        program_outcome(p, r2),
    ensures
        r1 is Ok <==> r2 is Ok,
        r1 is Ok ==> code_view(r1->Ok_0@) == code_view(r2->Ok_0@),
        r1 is Err ==> r1->Err_0@ == r2->Err_0@,
{
}

/// What `translate_program` returns for a program.
pub open spec fn program_outcome(p: Program, r: Result<Vec<BoatIns>, CompileError>) -> bool {
    match compile_block(p.block@, 1, p.functions@) {
        Ok((c, _)) => r is Ok && code_view(r->Ok_0@) == c,
        Err(err) => r is Err && r->Err_0@ == err,
    }
}

/// The constant address that a jump names, if it names one: the operand
/// of `g`, the second operand of `c`.
pub open spec fn jump_target(i: InsV) -> Option<Seq<char>> {
    if i.cmd == BoatCmd::Goto && i.args.len() >= 1 && i.args[0] is Const {
        Some(i.args[0]->Const_0)
    } else if i.cmd == BoatCmd::Cmp && i.args.len() >= 2 && i.args[1] is Const {
        Some(i.args[1]->Const_0)
    } else {
        None
    }
}

/// `s` is the text of an address from 1 to `hi`.
pub open spec fn address_upto(s: Seq<char>, hi: int) -> bool {
    exists|k: nat| 1 <= k <= hi && s == dec(k)
}

/// The resume address that an instruction stores in `return`, if it
/// stores a constant there: `ka return <address>`.
pub open spec fn resume_target(i: InsV) -> Option<Seq<char>> {
    if i.cmd == BoatCmd::KVSet && i.args.len() >= 2 && i.args[0] == ArgV::Const(return_name())
        && i.args[1] is Const {
        Some(i.args[1]->Const_0)
    } else {
        None
    }
}

/// `s` is the text of an address from 1 to `hi - 1`.
pub open spec fn address_below(s: Seq<char>, hi: int) -> bool {
    exists|k: nat| 1 <= k < hi && s == dec(k)
}

/// Every constant jump target in `c` is an address from 1 to `hi`, and
/// every resume address it stores is one from 1 to `hi - 1`.
pub open spec fn targets_upto(c: Seq<InsV>, hi: int) -> bool {
    &&& forall|i: int|
        0 <= i < c.len() && (#[trigger] jump_target(c[i])) is Some ==> address_upto(
            jump_target(c[i])->0,
            hi,
        )
    &&& forall|i: int|
        0 <= i < c.len() && (#[trigger] resume_target(c[i])) is Some ==> address_below(
            resume_target(c[i])->0,
            hi,
        )
}

/// A table entry fits code whose addresses go up to `hi`: a function of
/// the program starts at an address from 1 to `hi` and has no parameter
/// named `return`, and a built-in lowers to no jump and no store.
pub open spec fn entry_upto(f: FunV, hi: int) -> bool {
    match f {
        FunV::InProgram { begin_pos, arg_names } => 1 <= begin_pos <= hi && !arg_names.contains(
            return_name(),
        ),
        FunV::Predefined { translator } => match translator {
            Lowering::Command(c) => c != BoatCmd::Goto && c != BoatCmd::Cmp && c != BoatCmd::KVSet,
            _ => true,
        },
    }
}

/// Every entry of a table fits code whose addresses go up to `hi`.
pub open spec fn table_upto(t: Table, hi: int) -> bool {
    forall|i: int| 0 <= i < t.len() ==> entry_upto(#[trigger] t[i].1, hi)
}

proof fn lemma_targets_concat(a: Seq<InsV>, b: Seq<InsV>, hi: int)
    requires
        targets_upto(a, hi),
        targets_upto(b, hi),
    ensures
        targets_upto(a + b, hi),
{
    assert forall|i: int| 0 <= i < (a + b).len() && (#[trigger] jump_target((a + b)[i])) is Some implies address_upto(jump_target((a + b)[i])->0, hi) by {
        if i < a.len() {
            assert((a + b)[i] == a[i]);
        } else {
            assert((a + b)[i] == b[i - a.len()]);
        }
    }
    assert forall|i: int| 0 <= i < (a + b).len() && (#[trigger] resume_target((a + b)[i])) is Some implies address_below(resume_target((a + b)[i])->0, hi) by {
        if i < a.len() {
            assert((a + b)[i] == a[i]);
        } else {
            assert((a + b)[i] == b[i - a.len()]);
        }
    }
}

proof fn lemma_targets_mono(c: Seq<InsV>, hi: int, hi2: int)
    requires
        targets_upto(c, hi),
        hi <= hi2,
    ensures
        targets_upto(c, hi2),
{
    assert forall|i: int| 0 <= i < c.len() && (#[trigger] jump_target(c[i])) is Some implies address_upto(jump_target(c[i])->0, hi2) by {
        let k = choose|k: nat| 1 <= k <= hi && jump_target(c[i])->0 == dec(k);
    }
    assert forall|i: int| 0 <= i < c.len() && (#[trigger] resume_target(c[i])) is Some implies address_below(resume_target(c[i])->0, hi2) by {
        let k = choose|k: nat| 1 <= k < hi && resume_target(c[i])->0 == dec(k);
    }
}

proof fn lemma_table_mono(t: Table, hi: int, hi2: int)
    requires
        table_upto(t, hi),
        hi <= hi2,
    ensures
        table_upto(t, hi2),
{
    assert forall|i: int| 0 <= i < t.len() implies entry_upto(#[trigger] t[i].1, hi2) by {
        assert(entry_upto(t[i].1, hi));
    }
}

proof fn lemma_lookup_upto(t: Table, n: Seq<char>, hi: int)
    requires
        table_upto(t, hi),
        lookup(t, n) is Some,
    ensures
        entry_upto(lookup(t, n)->0, hi),
    decreases t.len(),
{
    if t.last().0 != n {
        let p = t.drop_last();
        assert forall|i: int| 0 <= i < p.len() implies entry_upto(#[trigger] p[i].1, hi) by {
            assert(p[i] == t[i]);
        }
        lemma_lookup_upto(p, n, hi);
    } else {
        assert(entry_upto(t[t.len() - 1].1, hi));
    }
}

proof fn lemma_single_target(i: InsV, k: int, hi: int)
    requires
        jump_target(i) == Some(dec(k as nat)),
        resume_target(i) is None,
        1 <= k <= hi,
    ensures
        targets_upto(seq![i], hi),
{
    assert(address_upto(dec(k as nat), hi));
}

proof fn lemma_no_target(c: Seq<InsV>, hi: int)
    requires
        forall|i: int| 0 <= i < c.len() ==> jump_target(#[trigger] c[i]) is None && resume_target(c[i]) is None,
    ensures
        targets_upto(c, hi),
{
}

/// An expression's code jumps only to addresses from 1 to the end of the
/// code, when the table's functions start no later than the code does.
proof fn lemma_expr_targets(e: BoatExpr, idx: int, t: Table)
    requires
        1 <= idx,
        table_upto(t, idx),
        compile_expr(e, idx, t) is Ok,
    ensures
        targets_upto(compile_expr(e, idx, t)->Ok_0.0, idx + compile_expr(e, idx, t)->Ok_0.0.len()),
    decreases e,
{
    match e {
        BoatExpr::Function { name, args } => {
            lemma_args_targets(args@, idx, t);
            let (c, refs) = compile_args(args@, idx, t)->Ok_0;
            let f = lookup(t, name@)->0;
            lemma_lookup_upto(t, name@, idx);
            let full = compile_expr(e, idx, t)->Ok_0.0;
            match f {
                FunV::Predefined { translator } => {
                    let ins = lower_spec(translator, refs);
                    assert(jump_target(ins) is None);
                    lemma_no_target(seq![ins], idx + full.len());
                    lemma_targets_mono(c, idx + c.len(), idx + full.len());
                    assert(full == c + seq![ins]);
                    lemma_targets_concat(c, seq![ins], idx + full.len());
                },
                FunV::InProgram { begin_pos, arg_names } => {
                    let m = if refs.len() < arg_names.len() { refs.len() } else { arg_names.len() };
                    let ret = idx + c.len() + m + 2;
                    let cc = call_code(refs, arg_names, ret, begin_pos);
                    assert(full == c + cc);
                    let set_code = Seq::new(
                        m as nat,
                        |j: int| InsV { cmd: BoatCmd::KVSet, args: seq![ArgV::Const(arg_names[j]), refs[j]] },
                    );
                    let mid = seq![
                        InsV {
                            cmd: BoatCmd::KVSet,
                            args: seq![ArgV::Const(crate::expr_translator::return_name()), ArgV::Const(dec(ret as nat))],
                        },
                        InsV { cmd: BoatCmd::Goto, args: seq![ArgV::Const(dec(begin_pos as nat))] },
                        InsV { cmd: BoatCmd::KVDel, args: seq![ArgV::Const(crate::expr_translator::return_name())] },
                    ];
                    let del_code = Seq::new(
                        arg_names.len(),
                        |j: int| InsV { cmd: BoatCmd::KVDel, args: seq![ArgV::Const(arg_names[j])] },
                    );
                    assert(cc == set_code + mid + del_code);
                    let hi = idx + full.len();
                    lemma_no_target(set_code, hi);
                    lemma_no_target(del_code, hi);
                    assert(targets_upto(mid, hi)) by {
                        assert(jump_target(mid[0]) is None);
                        assert(jump_target(mid[2]) is None);
                        assert(jump_target(mid[1]) == Some(dec(begin_pos as nat)));
                        assert(address_upto(dec(begin_pos as nat), hi));
                    }
                    lemma_targets_concat(set_code, mid, hi);
                    lemma_targets_concat(set_code + mid, del_code, hi);
                    lemma_targets_mono(c, idx + c.len(), hi);
                    lemma_targets_concat(c, cc, hi);
                },
            }
        },
        BoatExpr::BinOp { lhs, op, rhs } => {
            lemma_expr_targets(*rhs, idx, t);
            let cr = compile_expr(*rhs, idx, t)->Ok_0.0;
            lemma_table_mono(t, idx, idx + cr.len());
            lemma_expr_targets(*lhs, idx + cr.len(), t);
            let cl = compile_expr(*lhs, idx + cr.len(), t)->Ok_0.0;
            let full = compile_expr(e, idx, t)->Ok_0.0;
            let hi = idx + full.len();
            let last = full.last();
            assert(full == cr + cl + seq![last]);
            assert(jump_target(last) is None);
            lemma_no_target(seq![last], hi);
            lemma_targets_mono(cr, idx + cr.len(), hi);
            lemma_targets_mono(cl, idx + cr.len() + cl.len(), hi);
            lemma_targets_concat(cr, cl, hi);
            lemma_targets_concat(cr + cl, seq![last], hi);
        },
        _ => {},
    }
}

proof fn lemma_args_targets(s: Seq<BoatExpr>, idx: int, t: Table)
    requires
        1 <= idx,
        table_upto(t, idx),
        compile_args(s, idx, t) is Ok,
    ensures
        targets_upto(compile_args(s, idx, t)->Ok_0.0, idx + compile_args(s, idx, t)->Ok_0.0.len()),
    decreases s,
{
    if s.len() > 0 {
        lemma_args_targets(s.skip(1), idx, t);
        let c1 = compile_args(s.skip(1), idx, t)->Ok_0.0;
        lemma_table_mono(t, idx, idx + c1.len());
        lemma_expr_targets(s[0], idx + c1.len(), t);
        let c0 = compile_expr(s[0], idx + c1.len(), t)->Ok_0.0;
        let hi = idx + c1.len() + c0.len();
        lemma_targets_mono(c1, idx + c1.len(), hi);
        lemma_targets_concat(c1, c0, hi);
    }
}

/// What compiling a statement or block from address `idx` guarantees:
/// its jumps stay within addresses 1 to its end, and the table it leaves
/// fits code that ends there.
pub open spec fn stays_within(r: Result<(Seq<InsV>, Table), crate::expr_translator::CompileErrorV>, idx: int) -> bool {
    r is Ok ==> targets_upto(r->Ok_0.0, idx + r->Ok_0.0.len()) && table_upto(
        r->Ok_0.1,
        idx + r->Ok_0.0.len(),
    )
}

/// A statement binds no variable or parameter named `return`, the
/// variable that holds a call's resume address.
pub open spec fn binds_no_return(s: Statement) -> bool
    decreases s,
{
    match s {
        Statement::Assign { var_name, .. } => var_name@ != return_name(),
        Statement::If { block, else_block, .. } => block_binds_no_return(block@) && match else_block {
            Some(eb) => block_binds_no_return(eb@),
            None => true,
        },
        Statement::While { block, .. } => block_binds_no_return(block@),
        Statement::FunctionDefinition { arg_names, block, .. } => !crate::boat_program::names_view(
            arg_names@,
        ).contains(return_name()) && block_binds_no_return(block@),
        _ => true,
    }
}

/// No statement of a block binds `return`.
pub open spec fn block_binds_no_return(b: Seq<Statement>) -> bool
    decreases b,
{
    b.len() == 0 || (block_binds_no_return(b.drop_last()) && binds_no_return(b.last()))
}

proof fn lemma_simple_stmt_targets(c: Seq<InsV>, last: InsV, idx: int)
    requires
        targets_upto(c, idx + c.len()),
        jump_target(last) is None,
        resume_target(last) is None,
    ensures
        targets_upto(c.push(last), idx + c.len() + 1),
{
    lemma_targets_mono(c, idx + c.len(), idx + c.len() + 1);
    lemma_no_target(seq![last], idx + c.len() + 1);
    lemma_targets_concat(c, seq![last], idx + c.len() + 1);
    assert(c + seq![last] == c.push(last));
}

proof fn lemma_stmt_targets(s: Statement, idx: int, t: Table)
    requires
        1 <= idx,
        table_upto(t, idx),
        binds_no_return(s),
    ensures
        stays_within(compile_stmt(s, idx, t), idx),
    decreases s, 2int,
{
    if compile_stmt(s, idx, t) is Ok {
        let (full, t2) = compile_stmt(s, idx, t)->Ok_0;
        let hi = idx + full.len();
        match s {
            Statement::Assign { var_name, expr } => {
                lemma_expr_targets(expr, idx, t);
                let (c, a) = compile_expr(expr, idx, t)->Ok_0;
                lemma_simple_stmt_targets(c, full.last(), idx);
                assert(full == c.push(full.last()));
                lemma_table_mono(t, idx, hi);
            },
            Statement::Reassign { var_name, expr } => {
                lemma_expr_targets(expr, idx, t);
                let (c, a) = compile_expr(expr, idx, t)->Ok_0;
                lemma_simple_stmt_targets(c, full.last(), idx);
                assert(full == c.push(full.last()));
                lemma_table_mono(t, idx, hi);
            },
            Statement::Return(expr) => {
                lemma_expr_targets(expr, idx, t);
                let (c, a) = compile_expr(expr, idx, t)->Ok_0;
                if !(a is FromStack) {
                    lemma_simple_stmt_targets(c, full.last(), idx);
                    assert(full == c.push(full.last()));
                }
                lemma_table_mono(t, idx, hi);
            },
            Statement::Expr(expr) => {
                lemma_expr_targets(expr, idx, t);
                lemma_table_mono(t, idx, hi);
            },
            Statement::If { .. } => {
                lemma_if_targets(s, idx, t);
            },
            Statement::While { expr, block } => {
                lemma_expr_targets(expr, idx, t);
                let (c, a) = compile_expr(expr, idx, t)->Ok_0;
                let p = idx + c.len();
                lemma_table_mono(t, idx, p + 1);
                lemma_block_targets(block@, p + 1, t);
                let (cb, t1) = compile_block(block@, p + 1, t)->Ok_0;
                let first = full[c.len() as int];
                let back = full.last();
                assert(full == c + seq![first] + cb + seq![back]);
                lemma_single_target(first, hi, hi);
                lemma_single_target(back, idx, hi);
                lemma_targets_mono(c, p, hi);
                lemma_targets_mono(cb, p + 1 + cb.len(), hi);
                lemma_targets_concat(c, seq![first], hi);
                lemma_targets_concat(c + seq![first], cb, hi);
                lemma_targets_concat(c + seq![first] + cb, seq![back], hi);
                lemma_table_mono(t1, p + 1 + cb.len(), hi);
            },
            Statement::FunctionDefinition { name, arg_names, block } => {
                let begin = idx + 1;
                let t1 = t.push(
                    (name@, FunV::InProgram { begin_pos: begin, arg_names: crate::boat_program::names_view(arg_names@) }),
                );
                lemma_table_mono(t, idx, begin);
                assert(table_upto(t1, begin)) by {
                    assert forall|i: int| 0 <= i < t1.len() implies entry_upto(#[trigger] t1[i].1, begin) by {
                        if i < t.len() {
                            assert(t1[i] == t[i]);
                        }
                    }
                }
                lemma_block_targets(block@, begin, t1);
                let (cb, t2b) = compile_block(block@, begin, t1)->Ok_0;
                let first = full[0];
                let back = full.last();
                assert(full == seq![first] + cb + seq![back]);
                lemma_single_target(first, hi, hi);
                assert(jump_target(back) is None);
                lemma_no_target(seq![back], hi);
                lemma_targets_mono(cb, begin + cb.len(), hi);
                lemma_targets_concat(seq![first], cb, hi);
                lemma_targets_concat(seq![first] + cb, seq![back], hi);
                lemma_table_mono(t2b, begin + cb.len(), hi);
            },
        }
    }
}

proof fn lemma_if_targets(s: Statement, idx: int, t: Table)
    requires
        1 <= idx,
        table_upto(t, idx),
        binds_no_return(s),
        s is If,
    ensures
        stays_within(compile_if(s, idx, t), idx),
    decreases s, 1int,
{
    if compile_if(s, idx, t) is Ok {
        let expr = s->If_expr;
        lemma_expr_targets(expr, idx, t);
        let (c, a) = compile_expr(expr, idx, t)->Ok_0;
        let p = idx + c.len();
        lemma_table_mono(t, idx, p);
        lemma_branches_targets(s, a, p, t);
        let (cb, t1) = compile_branches(s, a, p, t)->Ok_0;
        let hi = p + cb.len();
        lemma_targets_mono(c, p, hi);
        lemma_targets_concat(c, cb, hi);
    }
}

#[verifier::rlimit(60)]
proof fn lemma_branches_targets(s: Statement, a: ArgV, p: int, t: Table)
    requires
        1 <= p,
        table_upto(t, p),
        binds_no_return(s),
        s is If,
    ensures
        stays_within(compile_branches(s, a, p, t), p),
    decreases s, 0int,
{
    if compile_branches(s, a, p, t) is Ok {
        let (full, t2) = compile_branches(s, a, p, t)->Ok_0;
        let hi = p + full.len();
        let block = s->If_block;
        lemma_table_mono(t, p, p + 1);
        lemma_block_targets(block@, p + 1, t);
        let (cb, t1) = compile_block(block@, p + 1, t)->Ok_0;
        let first = full[0];
        match s->If_else_block {
            None => {
                assert(full == seq![first] + cb);
                lemma_single_target(first, hi, hi);
                lemma_targets_mono(cb, p + 1 + cb.len(), hi);
                lemma_targets_concat(seq![first], cb, hi);
                lemma_table_mono(t1, p + 1 + cb.len(), hi);
            },
            Some(eb) => {
                let q = p + 1 + cb.len() + 1;
                lemma_table_mono(t1, p + 1 + cb.len(), q);
                lemma_block_targets(eb@, q, t1);
                let (ce, t3) = compile_block(eb@, q, t1)->Ok_0;
                let jump = full[1 + cb.len() as int];
                assert(full == seq![first] + cb + seq![jump] + ce);
                lemma_single_target(first, q, hi);
                lemma_single_target(jump, hi, hi);
                lemma_targets_mono(cb, p + 1 + cb.len(), hi);
                lemma_targets_mono(ce, q + ce.len(), hi);
                lemma_targets_concat(seq![first], cb, hi);
                lemma_targets_concat(seq![first] + cb, seq![jump], hi);
                lemma_targets_concat(seq![first] + cb + seq![jump], ce, hi);
            },
        }
    }
}

proof fn lemma_block_targets(b: Seq<Statement>, idx: int, t: Table)
    requires
        1 <= idx,
        table_upto(t, idx),
        block_binds_no_return(b),
    ensures
        stays_within(compile_block(b, idx, t), idx),
    decreases b, 0int,
{
    if b.len() > 0 && compile_block(b, idx, t) is Ok {
        lemma_block_targets(b.drop_last(), idx, t);
        let (c1, t1) = compile_block(b.drop_last(), idx, t)->Ok_0;
        lemma_stmt_targets(b.last(), idx + c1.len(), t1);
        let (c2, t2) = compile_stmt(b.last(), idx + c1.len(), t1)->Ok_0;
        let hi = idx + c1.len() + c2.len();
        lemma_targets_mono(c1, idx + c1.len(), hi);
        lemma_targets_concat(c1, c2, hi);
    } else if b.len() == 0 {
        lemma_table_mono(t, idx, idx);
    }
}

/// In the code of a program compiled from address 1, whose table holds
/// built-ins that lower to no jump and no store, every constant jump
/// target is an address from 1 to one past the last instruction, and every
/// resume address that a call stores in `return` is the address of an
/// instruction, from 1 to the last. The program itself binds no variable
/// or parameter named `return`.
pub proof fn lemma_jump_targets_in_range(b: Seq<Statement>, t: Table)
    requires
        table_upto(t, 1),
        block_binds_no_return(b),
        compile_block(b, 1, t) is Ok,
    ensures
        targets_upto(compile_block(b, 1, t)->Ok_0.0, compile_block(b, 1, t)->Ok_0.0.len() + 1int),
{
    lemma_block_targets(b, 1, t);
}

/// The table that a program starts from holds no function of the program
/// and no built-in that lowers to a jump.
pub proof fn lemma_initial_table_fits(defs: Seq<PinDefinition>)
    ensures
        table_upto(initial_table(defs), 1),
{
    let t = initial_table(defs);
    let pins = defs.map_values(|d: PinDefinition| pin_entry(d));
    assert forall|i: int| 0 <= i < t.len() implies entry_upto(#[trigger] t[i].1, 1) by {
        if i < pins.len() {
            assert(t[i] == pin_entry(defs[i]));
        } else {
            assert(t[i] == builtin_entries()[i - pins.len()]);
        }
    }
}

/// The address that an instruction jumps to, if it names one as a
/// constant that spells an address.
pub open spec fn target_address(i: InsV) -> Option<int> {
    match jump_target(i) {
        Some(t) => match parse_addr(t) {
            Some(a) => if a <= usize::MAX {
                Some(a)
            } else {
                None
            },
            None => None,
        },
        None => None,
    }
}

fn constant_target(ins: &BoatIns) -> (r: Option<usize>)
    ensures
        match target_address(ins@) {
            Some(a) => r is Some && r->0 as int == a,
            None => r is None,
        },
{
    let k: usize = match ins.cmd {
        BoatCmd::Goto => 0,
        BoatCmd::Cmp => 1,
        _ => {
            return None;
        },
    };
    if ins.args.len() <= k {
        return None;
    }
    proof {
        assert(ins@.args[k as int] == ins.args@[k as int]@);
    }
    match &ins.args[k] {
        BoatArg::Const(t) => parse_address(t),
        _ => None,
    }
}

/// The addresses that the code's jumps name as constants, in order: the
/// lines a listing marks as jump targets.
pub fn labeled_lines(code: &Vec<BoatIns>) -> (r: Vec<usize>)
    ensures
        forall|a: usize| #[trigger] r@.contains(a) <==> exists|i: int|
            0 <= i < code@.len() && #[trigger] target_address(code@[i]@) == Some(a as int),
{
    let mut r: Vec<usize> = Vec::new();
    let mut k: usize = 0;
    while k < code.len()
        invariant
            k <= code@.len(),
            forall|a: usize| #[trigger] r@.contains(a) <==> exists|i: int|
                0 <= i < k && #[trigger] target_address(code@[i]@) == Some(a as int),
        decreases code@.len() - k,
    {
        let ghost before = r@;
        match constant_target(&code[k]) {
            Some(a) => {
                r.push(a);
                proof {
                    assert forall|x: usize| #[trigger] r@.contains(x) <==> exists|i: int|
                        0 <= i < k + 1 && #[trigger] target_address(code@[i]@) == Some(x as int) by {
                        if r@.contains(x) {
                            let j = choose|j: int| 0 <= j < r@.len() && r@[j] == x;
                            if j < before.len() {
                                assert(before.contains(x));
                            } else {
                                assert(target_address(code@[k as int]@) == Some(x as int));
                            }
                        }
                        if exists|i: int| 0 <= i < k + 1 && #[trigger] target_address(code@[i]@) == Some(x as int) {
                            let i = choose|i: int| 0 <= i < k + 1 && #[trigger] target_address(code@[i]@) == Some(x as int);
                            if i < k {
                                assert(before.contains(x));
                                let j = choose|j: int| 0 <= j < before.len() && before[j] == x;
                                assert(r@[j] == x);
                            } else {
                                assert(r@[r@.len() - 1] == x);
                            }
                        }
                    }
                }
            },
            None => {
                proof {
                    assert forall|x: usize| #[trigger] r@.contains(x) <==> exists|i: int|
                        0 <= i < k + 1 && #[trigger] target_address(code@[i]@) == Some(x as int) by {
                        if exists|i: int| 0 <= i < k + 1 && #[trigger] target_address(code@[i]@) == Some(x as int) {
                            let i = choose|i: int| 0 <= i < k + 1 && #[trigger] target_address(code@[i]@) == Some(x as int);
                            assert(i < k);
                        }
                    }
                }
            },
        }
        k = k + 1;
    }
    r
}

} // verus!
