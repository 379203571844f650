use vstd::prelude::*;
use crate::boat_program::{Block, Program, Statement};

verus! {

broadcast use vstd::std_specs::vec::group_vec_axioms;

/// The names held in a list.
pub open spec fn name_set(v: Seq<String>) -> Set<Seq<char>> {
    Set::new(|n: Seq<char>| exists|i: int| 0 <= i < v.len() && v[i]@ == n)
}

/// The names bound after a block runs through the pass, starting from `v`.
pub open spec fn bound_after_block(b: Seq<Statement>, v: Set<Seq<char>>) -> Set<Seq<char>>
    decreases b,
{
    if b.len() == 0 {
        v
    } else {
        bound_after_stmt(b.last(), bound_after_block(b.drop_last(), v))
    }
}

/// The names bound after a statement runs through the pass: an assignment
/// binds its name, a branch or loop body keeps what it bound, and a
/// function's parameters are bound only within its body.
pub open spec fn bound_after_stmt(s: Statement, v: Set<Seq<char>>) -> Set<Seq<char>>
    decreases s,
{
    match s {
        Statement::Assign { var_name, .. } => v.insert(var_name@),
        Statement::If { block, else_block, .. } => {
            let v1 = bound_after_block(block@, v);
            match else_block {
                Some(e) => bound_after_block(e@, v1),
                None => v1,
            }
        },
        Statement::While { block, .. } => bound_after_block(block@, v),
        Statement::FunctionDefinition { arg_names, block, .. } => bound_after_block(
            block@,
            v.union(name_set(arg_names@)),
        ).difference(name_set(arg_names@)),
        _ => v,
    }
}

/// `r` is block `b` after the pass, with the names in `v` bound on entry.
pub open spec fn rewritten_block(b: Seq<Statement>, r: Seq<Statement>, v: Set<Seq<char>>) -> bool
    decreases b,
{
    b.len() == r.len() && (b.len() == 0 || (rewritten_block(b.drop_last(), r.drop_last(), v)
        && rewritten_stmt(b.last(), r.last(), bound_after_block(b.drop_last(), v))))
}

/// `t` is statement `s` after the pass, with the names in `v` bound on
/// entry: an assignment to a bound name becomes a reassignment, nested
/// blocks are rewritten, and everything else is kept.
pub open spec fn rewritten_stmt(s: Statement, t: Statement, v: Set<Seq<char>>) -> bool
    decreases s,
{
    match s {
        Statement::Assign { var_name, expr } => if v.contains(var_name@) {
            t == (Statement::Reassign { var_name, expr })
        } else {
            t == s
        },
        Statement::If { expr, block, else_block } => match t {
            Statement::If { expr: e2, block: b2, else_block: eb2 } => e2 == expr
                && rewritten_block(block@, b2@, v) && match else_block {
                Some(x) => eb2 is Some && rewritten_block(
                    x@,
                    eb2->0@,
                    bound_after_block(block@, v),
                ),
                None => eb2 is None,
            },
            _ => false,
        },
        Statement::While { expr, block } => match t {
            Statement::While { expr: e2, block: b2 } => e2 == expr && rewritten_block(block@, b2@, v),
            _ => false,
        },
        Statement::FunctionDefinition { name, arg_names, block } => match t {
            Statement::FunctionDefinition { name: n2, arg_names: a2, block: b2 } => n2 == name && a2
                == arg_names && rewritten_block(block@, b2@, v.union(name_set(arg_names@))),
            _ => false,
        },
        _ => t == s,
    }
}

fn names_contain(v: &Vec<String>, n: &String) -> (r: bool)
    ensures
        r == name_set(v@).contains(n@),
{
    let mut i: usize = 0;
    while i < v.len()
        invariant
            i <= v@.len(),
            forall|j: int| 0 <= j < i ==> v@[j]@ != n@,
        decreases v@.len() - i,
    {
        if v[i] == *n {
            return true;
        }
        i = i + 1;
    }
    false
}

fn names_add_all(v: &mut Vec<String>, ns: &Vec<String>)
    ensures
        name_set(final(v)@) == name_set(old(v)@).union(name_set(ns@)),
{
    let ghost start = v@;
    let mut i: usize = 0;
    while i < ns.len()
        invariant
            i <= ns@.len(),
            v@ == start + ns@.subrange(0, i as int),
        decreases ns@.len() - i,
    {
        v.push(ns[i].clone());
        i = i + 1;
        proof {
            assert(v@ =~= start + ns@.subrange(0, i as int));
        }
    }
    proof {
        assert(ns@.subrange(0, i as int) =~= ns@);
        assert forall|n: Seq<char>| name_set(v@).contains(n) <==> name_set(start).union(name_set(ns@)).contains(n) by {
            if name_set(v@).contains(n) {
                let j = choose|j: int| 0 <= j < v@.len() && v@[j]@ == n;
                if j >= start.len() {
                    assert(ns@[j - start.len()]@ == n);
                } else {
                    assert(start[j]@ == n);
                }
            }
            if name_set(start).contains(n) {
                let j = choose|j: int| 0 <= j < start.len() && start[j]@ == n;
                assert(v@[j]@ == n);
            }
            if name_set(ns@).contains(n) {
                let j = choose|j: int| 0 <= j < ns@.len() && ns@[j]@ == n;
                assert(v@[start.len() + j]@ == n);
            }
        }
        assert(name_set(v@) =~= name_set(start).union(name_set(ns@)));
    }
}

fn names_remove_all(v: &mut Vec<String>, ns: &Vec<String>)
    ensures
        name_set(final(v)@) == name_set(old(v)@).difference(name_set(ns@)),
{
    let mut kept: Vec<String> = Vec::new();
    let mut i: usize = 0;
    while i < v.len()
        invariant
            i <= v@.len(),
            forall|j: int| 0 <= j < kept@.len() ==> !name_set(ns@).contains(#[trigger] kept@[j]@)
                && name_set(v@.subrange(0, i as int)).contains(kept@[j]@),
            forall|j: int| 0 <= j < i && !name_set(ns@).contains(#[trigger] v@[j]@) ==> name_set(kept@).contains(v@[j]@),
        decreases v@.len() - i,
    {
        let ghost kept_before = kept@;
        let dropped = names_contain(ns, &v[i]);
        if !dropped {
            kept.push(v[i].clone());
            proof {
                let k = kept@.len() - 1;
                assert(kept@[k]@ == v@[i as int]@);
            }
        }
        proof {
            assert forall|j: int| 0 <= j < kept@.len() implies name_set(v@.subrange(0, i + 1)).contains(#[trigger] kept@[j]@) by {
                if j < kept@.len() - 1 || name_set(v@.subrange(0, i as int)).contains(kept@[j]@) {
                    if name_set(v@.subrange(0, i as int)).contains(kept@[j]@) {
                        let w = choose|w: int| 0 <= w < i && v@.subrange(0, i as int)[w]@ == kept@[j]@;
                        assert(v@.subrange(0, i + 1)[w]@ == kept@[j]@);
                    }
                } else {
                    assert(v@.subrange(0, i + 1)[i as int]@ == kept@[j]@);
                }
            }
            assert forall|j: int| 0 <= j < i + 1 && !name_set(ns@).contains(#[trigger] v@[j]@) implies name_set(kept@).contains(v@[j]@) by {
                if j == i {
                    assert(!dropped);
                    assert(kept@[kept@.len() - 1]@ == v@[j]@);
                } else {
                    assert(name_set(kept_before).contains(v@[j]@));
                    let w = choose|w: int| 0 <= w < kept_before.len() && kept_before[w]@ == v@[j]@;
                    assert(kept@[w] == kept_before[w]);
                }
            }
        }
        i = i + 1;
    }
    proof {
        assert(v@.subrange(0, i as int) =~= v@);
        assert forall|n: Seq<char>| name_set(kept@).contains(n) <==> name_set(v@).difference(name_set(ns@)).contains(n) by {
            if name_set(kept@).contains(n) {
                let j = choose|j: int| 0 <= j < kept@.len() && kept@[j]@ == n;
                assert(!name_set(ns@).contains(kept@[j]@));
            }
            if name_set(v@).difference(name_set(ns@)).contains(n) {
                let j = choose|j: int| 0 <= j < v@.len() && v@[j]@ == n;
                assert(!name_set(ns@).contains(v@[j]@));
            }
        }
        assert(name_set(kept@) =~= name_set(v@).difference(name_set(ns@)));
    }
    *v = kept;
}

fn optimize_statement(s: Statement, current_vars: &mut Vec<String>) -> (t: Statement)
    ensures
        rewritten_stmt(s, t, name_set(old(current_vars)@)),
        name_set(final(current_vars)@) == bound_after_stmt(s, name_set(old(current_vars)@)),
    decreases s,
{
    let ghost v0 = name_set(current_vars@);
    match s {
        Statement::Assign { var_name, expr } => {
            if names_contain(current_vars, &var_name) {
                Statement::Reassign { var_name, expr }
            } else {
                current_vars.push(var_name.clone());
                proof {
                    let w = current_vars@;
                    assert forall|n: Seq<char>| name_set(w).contains(n) <==> v0.insert(var_name@).contains(n) by {
                        if name_set(w).contains(n) {
                            let j = choose|j: int| 0 <= j < w.len() && w[j]@ == n;
                            if j < w.len() - 1 {
                                assert(old(current_vars)@[j]@ == n);
                                assert(v0.contains(n));
                            }
                        }
                        if v0.contains(n) {
                            let j = choose|j: int| 0 <= j < old(current_vars)@.len() && old(current_vars)@[j]@ == n;
                            assert(w[j]@ == n);
                        }
                        if n == var_name@ {
                            assert(w[w.len() - 1]@ == n);
                        }
                    }
                    assert(name_set(w) =~= v0.insert(var_name@));
                }
                Statement::Assign { var_name, expr }
            }
        },
        Statement::If { expr, block, else_block } => {
            let block = optimize_block_reassigns(block, current_vars);
            let else_block = match else_block {
                Some(e) => Some(optimize_block_reassigns(e, current_vars)),
                None => None,
            };
            Statement::If { expr, block, else_block }
        },
        Statement::While { expr, block } => {
            let block = optimize_block_reassigns(block, current_vars);
            Statement::While { expr, block }
        },
        Statement::FunctionDefinition { name, arg_names, block } => {
            names_add_all(current_vars, &arg_names);
            let block = optimize_block_reassigns(block, current_vars);
            names_remove_all(current_vars, &arg_names);
            Statement::FunctionDefinition { name, arg_names, block }
        },
        other => other,
    }
}

fn optimize_block_reassigns(block: Block, current_vars: &mut Vec<String>) -> (r: Block)
    ensures
        rewritten_block(block@, r@, name_set(old(current_vars)@)),
        name_set(final(current_vars)@) == bound_after_block(block@, name_set(old(current_vars)@)),
    decreases block,
{
    let ghost b0 = block@;
    let ghost bv = block;
    let ghost v0 = name_set(current_vars@);
    let n = block.len();
    let mut rest = block;
    let mut pending: Vec<Statement> = Vec::new();
    while rest.len() > 0
        invariant
            n == b0.len(),
            rest@.len() + pending@.len() == n,
            rest@ == b0.subrange(0, rest@.len() as int),
            forall|j: int| 0 <= j < pending@.len() ==> pending@[j] == b0[n - 1 - j],
        decreases rest@.len(),
    {
        let s = rest.pop().unwrap();
        pending.push(s);
        proof {
            assert(rest@ =~= b0.subrange(0, rest@.len() as int));
        }
    }
    let mut out: Vec<Statement> = Vec::new();
    proof {
        assert(b0.subrange(0, 0) =~= Seq::<Statement>::empty());
        assert(out@ =~= Seq::<Statement>::empty());
    }
    while pending.len() > 0
        invariant
            bv == block,
            bv@ == b0,
            n == b0.len(),
            out@.len() + pending@.len() == n,
            forall|j: int| 0 <= j < pending@.len() ==> pending@[j] == b0[n - 1 - j],
            rewritten_block(b0.subrange(0, out@.len() as int), out@, v0),
            name_set(current_vars@) == bound_after_block(b0.subrange(0, out@.len() as int), v0),
        decreases pending@.len(),
    {
        let i = out.len();
        let s = pending.pop().unwrap();
        proof {
            assert(s == b0[i as int]);
            assert(bv@ == b0);
            assert(0 <= i < bv.len());
            assert(decreases_to!(bv => bv[i as int]));
        }
        let t = optimize_statement(s, current_vars);
        let ghost out_before = out@;
        out.push(t);
        proof {
            let p = b0.subrange(0, i + 1);
            assert(p.drop_last() =~= b0.subrange(0, i as int));
            assert(out@.drop_last() =~= out_before);
            assert(p.last() == b0[i as int]);
            assert(out@.last() == t);
            assert(rewritten_stmt(p.last(), out@.last(), bound_after_block(p.drop_last(), v0)));
            assert(rewritten_block(p.drop_last(), out@.drop_last(), v0));
        }
    }
    proof {
        assert(b0.subrange(0, n as int) =~= b0);
    }
    out
}

/// Rewrites each assignment to a name that is already bound into a
/// reassignment, over the whole program.
pub fn optimize_reassigns(program: &mut Program)
    ensures
        rewritten_block(old(program).block@, final(program).block@, Set::empty()),
        final(program).functions == old(program).functions,
{
    let mut vars: Vec<String> = Vec::new();
    let mut block: Block = Vec::new();
    std::mem::swap(&mut program.block, &mut block);
    proof {
        assert(name_set(vars@) =~= Set::<Seq<char>>::empty());
    }
    program.block = optimize_block_reassigns(block, &mut vars);
}

} // verus!
