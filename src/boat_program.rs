use vstd::prelude::*;
use crate::boat_instructions::BoatCmd;

verus! {

/// An expression of the source language.
#[derive(Debug)]
pub enum BoatExpr {
    /// A literal token.
    Value(String),
    /// The current value of a variable.
    Var(String),
    /// A call of a built-in or of a function of the program.
    Function { name: String, args: Vec<BoatExpr> },
    /// A binary operation.
    BinOp { lhs: Box<BoatExpr>, op: BoatOp, rhs: Box<BoatExpr> },
}

/// The binary operators.
#[derive(Debug, Clone, Copy, PartialEq, Eq, Structural)]
pub enum BoatOp {
    Add,
    Sub,
    Mul,
    Div,
    Conc,
    Lt,
    Gt,
    Eq,
}

/// A statement of the source language.
#[derive(Debug)]
pub enum Statement {
    If { expr: BoatExpr, block: Block, else_block: Option<Block> },
    While { expr: BoatExpr, block: Block },
    /// Binds a new value on the variable's value-stack.
    Assign { var_name: String, expr: BoatExpr },
    /// Overwrites the top of the variable's value-stack.
    Reassign { var_name: String, expr: BoatExpr },
    FunctionDefinition { name: String, arg_names: Vec<String>, block: Block },
    Return(BoatExpr),
    /// An expression evaluated for its effects.
    Expr(BoatExpr),
}

/// A sequence of statements.
pub type Block = Vec<Statement>;

/// How a built-in call is lowered to instructions.
#[derive(Debug, Clone, Copy, PartialEq, Eq, Structural)]
pub enum Lowering {
    /// One instruction of this opcode with the call's operands.
    Command(BoatCmd),
    /// Reading from an input pin: `Input` with the pin number first, and a
    /// default argument of `60` when the call has none.
    InputPin(u32),
    /// Writing to an output pin: `Output` with the pin number first.
    OutputPin(u32),
}

/// What a function name stands for.
#[derive(Debug)]
pub enum Function {
    /// A function of the program: its body starts at `begin_pos`.
    InProgram { begin_pos: usize, arg_names: Vec<String> },
    /// A built-in or a declared pin.
    Predefined { translator: Lowering },
}

/// The function table: a later entry of a name shadows an earlier one.
#[derive(Debug)]
pub struct Functions {
    pub entries: Vec<(String, Function)>,
}

/// A program: its function table and its top-level block.
#[derive(Debug)]
pub struct Program {
    pub functions: Functions,
    pub block: Block,
}

/// The value of a function-table entry.
pub enum FunV {
    InProgram { begin_pos: int, arg_names: Seq<Seq<char>> },
    Predefined { translator: Lowering },
}

/// The values of a list of names.
pub open spec fn names_view(v: Seq<String>) -> Seq<Seq<char>> {
    v.map_values(|s: String| s@)
}

impl View for Function {
    type V = FunV;

    open spec fn view(&self) -> FunV {
        match self {
            Function::InProgram { begin_pos, arg_names } => FunV::InProgram {
                begin_pos: *begin_pos as int,
                arg_names: names_view(arg_names@),
            },
            Function::Predefined { translator } => FunV::Predefined { translator: *translator },
        }
    }
}

/// The value of a table: its entries in order of insertion.
pub open spec fn table_view(t: Seq<(String, Function)>) -> Seq<(Seq<char>, FunV)> {
    t.map_values(|e: (String, Function)| (e.0@, e.1@))
}

impl View for Functions {
    type V = Seq<(Seq<char>, FunV)>;

    open spec fn view(&self) -> Seq<(Seq<char>, FunV)> {
        table_view(self.entries@)
    }
}

/// The function that `name` stands for in a table: its last entry.
pub open spec fn lookup(t: Seq<(Seq<char>, FunV)>, name: Seq<char>) -> Option<FunV>
    decreases t.len(),
{
    if t.len() == 0 {
        None
    } else if t.last().0 == name {
        Some(t.last().1)
    } else {
        lookup(t.drop_last(), name)
    }
}

impl Functions {
    /// An empty table.
    pub fn new() -> (r: Functions)
        ensures
            r@ == Seq::<(Seq<char>, FunV)>::empty(),
    {
        let r = Functions { entries: Vec::new() };
        proof {
            assert(r@ =~= Seq::<(Seq<char>, FunV)>::empty());
        }
        r
    }

    /// Binds `name` to `f`, shadowing any earlier binding.
    pub fn insert(&mut self, name: String, f: Function)
        ensures
            final(self)@ == old(self)@.push((name@, f@)),
    {
        self.entries.push((name, f));
        proof {
            assert(self@ =~= old(self)@.push((name@, f@)));
        }
    }

    /// The function that `name` stands for.
    pub fn get(&self, name: &String) -> (r: Option<&Function>)
        ensures
            match lookup(self@, name@) {
                None => r is None,
                Some(f) => r is Some && r->0@ == f,
            },
    {
        let mut i = self.entries.len();
        proof {
            assert(self.entries@.subrange(0, i as int) =~= self.entries@);
        }
        proof {
            assert(table_view(self.entries@.subrange(0, 0)) =~= Seq::<(Seq<char>, FunV)>::empty());
        }
        while i > 0
            invariant
                i <= self.entries@.len(),
                lookup(self@, name@) == lookup(table_view(self.entries@.subrange(0, i as int)), name@),
            decreases i,
        {
            let ghost t = self.entries@.subrange(0, i as int);
            proof {
                assert(table_view(t).drop_last() =~= table_view(self.entries@.subrange(0, i - 1)));
            }
            if self.entries[i - 1].0 == *name {
                return Some(&self.entries[i - 1].1);
            }
            i = i - 1;
        }
        None
    }
}

} // verus!
