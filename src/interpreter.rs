use vstd::prelude::*;
use vstd::string::StringExecFns;
use crate::boat_instructions::{code_view, ArgV, BoatArg, BoatCmd, BoatIns, InsV};

verus! {

broadcast use vstd::std_specs::vec::group_vec_axioms;

/// The variable store's value: each bound name with its value-stack, the
/// top last.
pub type VarsV = Map<Seq<char>, Seq<Seq<char>>>;

/// The variable store: one entry per name, holding its value-stack.
#[derive(Debug)]
pub struct VarStore {
    pub entries: Vec<(String, Vec<String>)>,
}

/// No name has two entries.
pub open spec fn unique_names(e: Seq<(String, Vec<String>)>) -> bool {
    forall|i: int, j: int| 0 <= i < j < e.len() ==> e[i].0@ != e[j].0@
}

/// The values of a list of tokens.
pub open spec fn tokens_view(v: Seq<String>) -> Seq<Seq<char>> {
    v.map_values(|s: String| s@)
}

/// Whether some entry holds name `n`.
pub open spec fn has_entry(e: Seq<(String, Vec<String>)>, n: Seq<char>) -> bool {
    exists|i: int| 0 <= i < e.len() && e[i].0@ == n
}

/// The index of the entry of name `n`.
pub open spec fn entry_index(e: Seq<(String, Vec<String>)>, n: Seq<char>) -> int {
    choose|i: int| 0 <= i < e.len() && e[i].0@ == n
}

/// The map from names to value-stacks that the entries hold.
pub open spec fn vars_view(e: Seq<(String, Vec<String>)>) -> VarsV {
    Map::new(|n: Seq<char>| has_entry(e, n), |n: Seq<char>| tokens_view(e[entry_index(e, n)].1@))
}

impl View for VarStore {
    type V = VarsV;

    open spec fn view(&self) -> VarsV {
        vars_view(self.entries@)
    }
}

/// The top of a variable's value-stack, if it has one.
pub open spec fn peek_spec(vars: VarsV, n: Seq<char>) -> Option<Seq<char>> {
    if vars.contains_key(n) && vars[n].len() > 0 {
        Some(vars[n].last())
    } else {
        None
    }
}

/// `v` pushed on the value-stack of `n`.
pub open spec fn push_spec(vars: VarsV, n: Seq<char>, v: Seq<char>) -> VarsV {
    vars.insert(n, if vars.contains_key(n) { vars[n] } else { Seq::empty() }.push(v))
}

/// The top of `n`'s value-stack removed; nothing happens to a name without
/// an entry or with an empty stack.
pub open spec fn pop_spec(vars: VarsV, n: Seq<char>) -> VarsV {
    if vars.contains_key(n) && vars[n].len() > 0 {
        vars.insert(n, vars[n].drop_last())
    } else {
        vars
    }
}

/// The top of `n`'s value-stack overwritten by `v`, or `v` pushed on an
/// empty or new one.
pub open spec fn replace_spec(vars: VarsV, n: Seq<char>, v: Seq<char>) -> VarsV {
    vars.insert(
        n,
        if vars.contains_key(n) && vars[n].len() > 0 {
            vars[n].drop_last()
        } else {
            Seq::empty()
        }.push(v),
    )
}

proof fn lemma_index(e: Seq<(String, Vec<String>)>, i: int)
    requires
        unique_names(e),
        0 <= i < e.len(),
    ensures
        has_entry(e, e[i].0@),
        entry_index(e, e[i].0@) == i,
{
    assert(has_entry(e, e[i].0@));
}

impl VarStore {
    /// An empty store.
    pub fn new() -> (r: VarStore)
        ensures
            r.wf(),
            r@ == Map::<Seq<char>, Seq<Seq<char>>>::empty(),
    {
        let r = VarStore { entries: Vec::new() };
        proof {
            assert(r@ =~= Map::<Seq<char>, Seq<Seq<char>>>::empty());
        }
        r
    }

    /// No name has two entries.
    pub open spec fn wf(&self) -> bool {
        unique_names(self.entries@)
    }

    fn find(&self, n: &String) -> (r: Option<usize>)
        requires
            self.wf(),
        ensures
            match r {
                Some(i) => i < self.entries@.len() && self.entries@[i as int].0@ == n@
                    && entry_index(self.entries@, n@) == i,
                None => !has_entry(self.entries@, n@),
            },
    {
        let mut i: usize = 0;
        while i < self.entries.len()
            invariant
                i <= self.entries@.len(),
                unique_names(self.entries@),
                forall|j: int| 0 <= j < i ==> self.entries@[j].0@ != n@,
            decreases self.entries@.len() - i,
        {
            if self.entries[i].0 == *n {
                proof {
                    lemma_index(self.entries@, i as int);
                }
                return Some(i);
            }
            i = i + 1;
        }
        None
    }

    /// The top of `n`'s value-stack.
    pub fn peek(&self, n: &String) -> (r: Option<String>)
        requires
            self.wf(),
        ensures
            match peek_spec(self@, n@) {
                Some(v) => r is Some && r->0@ == v,
                None => r is None,
            },
    {
        match self.find(n) {
            None => None,
            Some(i) => {
                let vals = &self.entries[i].1;
                if vals.len() == 0 {
                    None
                } else {
                    Some(vals[vals.len() - 1].clone())
                }
            },
        }
    }

    /// The depth of `n`'s value-stack, 0 for a name without one.
    pub fn depth(&self, n: &String) -> (r: usize)
        requires
            self.wf(),
        ensures
            r == if self@.contains_key(n@) { self@[n@].len() } else { 0 },
    {
        match self.find(n) {
            None => 0,
            Some(i) => self.entries[i].1.len(),
        }
    }

    /// Sets `n`'s value-stack to `vals`; `i` is the index of `n`'s entry, if
    /// it has one.
    fn update(&mut self, n: String, i: Option<usize>, vals: Vec<String>)
        requires
            old(self).wf(),
            match i {
                Some(k) => k < old(self).entries@.len() && old(self).entries@[k as int].0@ == n@,
                None => !has_entry(old(self).entries@, n@),
            },
        ensures
            final(self).wf(),
            final(self)@ == old(self)@.insert(n@, tokens_view(vals@)),
    {
        let ghost e0 = self.entries@;
        let ghost nv = n@;
        match i {
            Some(k) => {
                self.entries.set(k, (n, vals));
                proof {
                    let e = self.entries@;
                    assert(unique_names(e)) by {
                        assert forall|a: int, b: int| 0 <= a < b < e.len() implies e[a].0@ != e[b].0@ by {
                            assert(e0[a].0@ != e0[b].0@);
                        }
                    }
                    assert forall|m: Seq<char>| #[trigger] has_entry(e, m) <==> has_entry(e0, m) by {
                        if has_entry(e, m) {
                            let w = choose|w: int| 0 <= w < e.len() && e[w].0@ == m;
                            assert(e0[w].0@ == m);
                        }
                        if has_entry(e0, m) {
                            let w = choose|w: int| 0 <= w < e0.len() && e0[w].0@ == m;
                            assert(e[w].0@ == m);
                        }
                    }
                    assert forall|m: Seq<char>| has_entry(e, m) implies #[trigger] vars_view(e)[m] == old(self)@.insert(nv, tokens_view(vals@))[m] by {
                        let w = choose|w: int| 0 <= w < e.len() && e[w].0@ == m;
                        lemma_index(e, w);
                        lemma_index(e0, w);
                    }
                    assert(vars_view(e) =~= old(self)@.insert(nv, tokens_view(vals@)));
                }
            },
            None => {
                self.entries.push((n, vals));
                proof {
                    let e = self.entries@;
                    assert(unique_names(e)) by {
                        assert forall|a: int, b: int| 0 <= a < b < e.len() implies e[a].0@ != e[b].0@ by {
                            if b == e.len() - 1 {
                                assert(e0[a].0@ == e[a].0@);
                            } else {
                                assert(e0[a].0@ != e0[b].0@);
                            }
                        }
                    }
                    assert forall|m: Seq<char>| #[trigger] has_entry(e, m) <==> (has_entry(e0, m) || m == nv) by {
                        if has_entry(e, m) {
                            let w = choose|w: int| 0 <= w < e.len() && e[w].0@ == m;
                            if w < e0.len() {
                                assert(e0[w].0@ == m);
                            }
                        }
                        if has_entry(e0, m) {
                            let w = choose|w: int| 0 <= w < e0.len() && e0[w].0@ == m;
                            assert(e[w].0@ == m);
                        }
                        if m == nv {
                            assert(e[e.len() - 1].0@ == m);
                        }
                    }
                    assert forall|m: Seq<char>| has_entry(e, m) implies #[trigger] vars_view(e)[m] == old(self)@.insert(nv, tokens_view(vals@))[m] by {
                        let w = choose|w: int| 0 <= w < e.len() && e[w].0@ == m;
                        lemma_index(e, w);
                        if w < e0.len() {
                            lemma_index(e0, w);
                        }
                    }
                    assert(vars_view(e) =~= old(self)@.insert(nv, tokens_view(vals@)));
                }
            },
        }
    }

    fn current(&self, i: Option<usize>) -> (r: Vec<String>)
        requires
            self.wf(),
            match i {
                Some(k) => k < self.entries@.len(),
                None => true,
            },
        ensures
            match i {
                Some(k) => tokens_view(r@) == tokens_view(self.entries@[k as int].1@),
                None => r@.len() == 0,
            },
    {
        match i {
            None => Vec::new(),
            Some(k) => {
                let src = &self.entries[k].1;
                let mut r: Vec<String> = Vec::new();
                let mut j: usize = 0;
                while j < src.len()
                    invariant
                        j <= src@.len(),
                        r@.len() == j,
                        forall|x: int| 0 <= x < j ==> r@[x]@ == src@[x]@,
                    decreases src@.len() - j,
                {
                    r.push(src[j].clone());
                    j = j + 1;
                }
                proof {
                    assert(tokens_view(r@) =~= tokens_view(src@));
                }
                r
            },
        }
    }

    /// Pushes `v` on `n`'s value-stack.
    pub fn push(&mut self, n: String, v: String)
        requires
            old(self).wf(),
        ensures
            final(self).wf(),
            final(self)@ == push_spec(old(self)@, n@, v@),
    {
        let i = self.find(&n);
        let mut vals = self.current(i);
        let ghost before = tokens_view(vals@);
        vals.push(v);
        proof {
            assert(tokens_view(vals@) =~= before.push(v@));
            if i is Some {
                lemma_index(self.entries@, i->0 as int);
                assert(before == self@[n@]);
            } else {
                assert(before =~= Seq::<Seq<char>>::empty());
                assert(!self@.contains_key(n@));
            }
        }
        self.update(n, i, vals);
    }

    /// Pops the top of `n`'s value-stack, if there is one.
    pub fn pop(&mut self, n: String)
        requires
            old(self).wf(),
        ensures
            final(self).wf(),
            final(self)@ == pop_spec(old(self)@, n@),
    {
        let i = self.find(&n);
        match i {
            None => {},
            Some(k) => {
                let mut vals = self.current(i);
                if vals.len() > 0 {
                    let ghost before = tokens_view(vals@);
                    vals.pop();
                    proof {
                        assert(tokens_view(vals@) =~= before.drop_last());
                        lemma_index(self.entries@, k as int);
                    }
                    self.update(n, i, vals);
                } else {
                    proof {
                        lemma_index(self.entries@, k as int);
                    }
                }
            },
        }
    }

    /// Overwrites the top of `n`'s value-stack with `v`, or pushes `v` on an
    /// empty or new one.
    pub fn replace(&mut self, n: String, v: String)
        requires
            old(self).wf(),
        ensures
            final(self).wf(),
            final(self)@ == replace_spec(old(self)@, n@, v@),
    {
        let i = self.find(&n);
        let mut vals = self.current(i);
        proof {
            if i is Some {
                lemma_index(self.entries@, i->0 as int);
                assert(tokens_view(vals@) == self@[n@]);
            } else {
                assert(!self@.contains_key(n@));
            }
        }
        if vals.len() > 0 {
            let ghost before = tokens_view(vals@);
            vals.pop();
            proof {
                assert(tokens_view(vals@) =~= before.drop_last());
            }
        }
        let ghost base = tokens_view(vals@);
        proof {
            if !(self@.contains_key(n@) && self@[n@].len() > 0) {
                assert(base =~= Seq::<Seq<char>>::empty());
            }
        }
        vals.push(v);
        proof {
            assert(tokens_view(vals@) =~= base.push(v@));
        }
        self.update(n, i, vals);
    }
}

/// Why a run stopped.
#[derive(Debug, Clone, PartialEq, Eq)]
pub enum RunError {
    /// An operand was to be popped from an empty operand stack.
    StackUnderflow,
    /// A variable was read that has no value.
    UndefinedVariable(String),
    /// A jump target is not a positive decimal address.
    InvalidAddress(String),
    /// An instruction has fewer operands than its opcode needs.
    MissingOperand,
}

/// The value of a run error.
pub enum RunErrorV {
    StackUnderflow,
    UndefinedVariable(Seq<char>),
    InvalidAddress(Seq<char>),
    MissingOperand,
}

impl View for RunError {
    type V = RunErrorV;

    open spec fn view(&self) -> RunErrorV {
        match self {
            RunError::StackUnderflow => RunErrorV::StackUnderflow,
            RunError::UndefinedVariable(n) => RunErrorV::UndefinedVariable(n@),
            RunError::InvalidAddress(a) => RunErrorV::InvalidAddress(a@),
            RunError::MissingOperand => RunErrorV::MissingOperand,
        }
    }
}

/// What the host has to do after a step.
#[derive(Debug, Clone, PartialEq, Eq)]
pub enum Effect {
    /// Nothing: step again.
    Continue,
    /// The instruction pointer is past the last instruction.
    Halt,
    /// Read one line, trim it and hand it back with `deliver`.
    Input,
    /// Send `value` to pin `pin`.
    Output { pin: String, value: String },
    /// Wait for the given duration, in seconds.
    Sleep(String),
    /// Compute a numeric opcode on two operands and hand the result back
    /// with `deliver`.
    Compute { cmd: BoatCmd, lhs: String, rhs: String },
    /// Paint the display pixel at `x`, `y`.
    Display { x: String, y: String },
    /// Clear the display.
    DisplayClear,
}

/// The value of an effect.
pub enum EffectV {
    Continue,
    Halt,
    Input,
    Output { pin: Seq<char>, value: Seq<char> },
    Sleep(Seq<char>),
    Compute { cmd: BoatCmd, lhs: Seq<char>, rhs: Seq<char> },
    Display { x: Seq<char>, y: Seq<char> },
    DisplayClear,
}

impl View for Effect {
    type V = EffectV;

    open spec fn view(&self) -> EffectV {
        match self {
            Effect::Continue => EffectV::Continue,
            Effect::Halt => EffectV::Halt,
            Effect::Input => EffectV::Input,
            Effect::Output { pin, value } => EffectV::Output { pin: pin@, value: value@ },
            Effect::Sleep(d) => EffectV::Sleep(d@),
            Effect::Compute { cmd, lhs, rhs } => EffectV::Compute { cmd: *cmd, lhs: lhs@, rhs: rhs@ },
            Effect::Display { x, y } => EffectV::Display { x: x@, y: y@ },
            Effect::DisplayClear => EffectV::DisplayClear,
        }
    }
}

/// The virtual machine: operand stack, variable store and 1-based
/// instruction pointer.
#[derive(Debug)]
pub struct Machine {
    pub stack: Vec<String>,
    pub vars: VarStore,
    pub ip: usize,
}

/// The value of a machine.
pub struct MachineV {
    pub stack: Seq<Seq<char>>,
    pub vars: VarsV,
    pub ip: int,
}

impl View for Machine {
    type V = MachineV;

    open spec fn view(&self) -> MachineV {
        MachineV { stack: tokens_view(self.stack@), vars: self.vars@, ip: self.ip as int }
    }
}

/// The value of a decimal digit character.
pub open spec fn digit_value(c: char) -> int {
    c as int - '0' as int
}

/// Whether a character is a decimal digit.
pub open spec fn is_digit(c: char) -> bool {
    '0' <= c <= '9'
}

/// The number that a string of decimal digits spells.
pub open spec fn digits_value(s: Seq<char>) -> int
    decreases s.len(),
{
    if s.len() == 0 {
        0
    } else {
        digits_value(s.drop_last()) * 10 + digit_value(s.last())
    }
}

/// The address a token spells: a non-empty run of decimal digits.
pub open spec fn parse_addr(s: Seq<char>) -> Option<int> {
    if s.len() > 0 && forall|i: int| 0 <= i < s.len() ==> is_digit(#[trigger] s[i]) {
        Some(digits_value(s))
    } else {
        None
    }
}

/// The value of an operand, and the operand stack after reading it: a
/// constant is itself, a stack operand is popped, a variable operand is
/// the top of its value-stack.
pub open spec fn resolve(a: ArgV, stack: Seq<Seq<char>>, vars: VarsV) -> Result<(Seq<char>, Seq<Seq<char>>), RunErrorV> {
    match a {
        ArgV::Const(c) => Ok((c, stack)),
        ArgV::FromStack => if stack.len() == 0 {
            Err(RunErrorV::StackUnderflow)
        } else {
            Ok((stack.last(), stack.drop_last()))
        },
        ArgV::FromKVS(n) => match peek_spec(vars, n) {
            None => Err(RunErrorV::UndefinedVariable(n)),
            Some(v) => Ok((v, stack)),
        },
    }
}

/// How many operands an opcode reads.
pub open spec fn operand_count(c: BoatCmd) -> nat {
    match c {
        BoatCmd::Input | BoatCmd::DisplayClear => 0,
        BoatCmd::Push | BoatCmd::Goto | BoatCmd::KVDel | BoatCmd::Sleep => 1,
        _ => 2,
    }
}

/// The values of the first `n` operands (an empty text for one not read),
/// and the operand stack after reading them in order.
pub open spec fn resolve_operands(args: Seq<ArgV>, n: nat, stack: Seq<Seq<char>>, vars: VarsV) -> Result<
    (Seq<char>, Seq<char>, Seq<Seq<char>>),
    RunErrorV,
> {
    if n == 0 {
        Ok((Seq::empty(), Seq::empty(), stack))
    } else {
        match resolve(args[0], stack, vars) {
            Err(e) => Err(e),
            Ok((v0, s1)) => if n == 1 {
                Ok((v0, Seq::empty(), s1))
            } else {
                match resolve(args[1], s1, vars) {
                    Err(e) => Err(e),
                    Ok((v1, s2)) => Ok((v0, v1, s2)),
                }
            },
        }
    }
}

/// The machine after a jump to the address that `t` spells.
pub open spec fn jump_spec(m: MachineV, t: Seq<char>) -> Result<(MachineV, EffectV), RunErrorV> {
    match parse_addr(t) {
        Some(a) => if 1 <= a <= usize::MAX {
            Ok((MachineV { ip: a, ..m }, EffectV::Continue))
        } else {
            Err(RunErrorV::InvalidAddress(t))
        },
        None => Err(RunErrorV::InvalidAddress(t)),
    }
}

/// The token of a boolean.
pub open spec fn bool_token(b: bool) -> Seq<char> {
    if b { seq!['1'] } else { seq!['0'] }
}

/// The effect of an opcode on operand values `v0`, `v1`, in machine `m`
/// whose operands have been read.
pub open spec fn apply_spec(cmd: BoatCmd, v0: Seq<char>, v1: Seq<char>, m: MachineV) -> Result<(MachineV, EffectV), RunErrorV> {
    let next = MachineV { ip: m.ip + 1, ..m };
    match cmd {
        BoatCmd::Push => Ok((MachineV { stack: m.stack.push(v0), ..next }, EffectV::Continue)),
        BoatCmd::Goto => jump_spec(m, v0),
        BoatCmd::Input => Ok((next, EffectV::Input)),
        BoatCmd::Output => Ok((next, EffectV::Output { pin: v0, value: v1 })),
        BoatCmd::Add | BoatCmd::Sub | BoatCmd::Mul | BoatCmd::Div | BoatCmd::Lt | BoatCmd::Gt => Ok(
            (next, EffectV::Compute { cmd, lhs: v0, rhs: v1 }),
        ),
        BoatCmd::Conc => Ok((MachineV { stack: m.stack.push(v0 + v1), ..next }, EffectV::Continue)),
        BoatCmd::Eq => Ok(
            (MachineV { stack: m.stack.push(bool_token(v0 == v1)), ..next }, EffectV::Continue),
        ),
        BoatCmd::KVSet => Ok((MachineV { vars: push_spec(m.vars, v0, v1), ..next }, EffectV::Continue)),
        BoatCmd::KVReSet => Ok(
            (MachineV { vars: replace_spec(m.vars, v0, v1), ..next }, EffectV::Continue),
        ),
        BoatCmd::KVDel => Ok((MachineV { vars: pop_spec(m.vars, v0), ..next }, EffectV::Continue)),
        BoatCmd::Cmp => if v0 == seq!['0'] {
            jump_spec(m, v1)
        } else {
            Ok((next, EffectV::Continue))
        },
        BoatCmd::Sleep => Ok((next, EffectV::Sleep(v0))),
        BoatCmd::Display => Ok((next, EffectV::Display { x: v0, y: v1 })),
        BoatCmd::DisplayClear => Ok((next, EffectV::DisplayClear)),
    }
}

/// One step of the machine on `code`: halt past the last instruction,
/// else read the instruction's operands and apply its opcode.
pub open spec fn step_spec(code: Seq<InsV>, m: MachineV) -> Result<(MachineV, EffectV), RunErrorV> {
    if !(1 <= m.ip <= code.len()) {
        Ok((m, EffectV::Halt))
    } else {
        let ins = code[m.ip - 1];
        if ins.args.len() < operand_count(ins.cmd) {
            Err(RunErrorV::MissingOperand)
        } else {
            match resolve_operands(ins.args, operand_count(ins.cmd), m.stack, m.vars) {
                Err(e) => Err(e),
                Ok((v0, v1, s)) => apply_spec(ins.cmd, v0, v1, MachineV { stack: s, ..m }),
            }
        }
    }
}

/// The value of an operand; a stack operand is popped from `stack`.
pub fn get_arg(arg: &BoatArg, stack: &mut Vec<String>, kvs: &VarStore) -> (r: Result<String, RunError>)
    requires
        kvs.wf(),
    ensures
        match resolve(arg@, tokens_view(old(stack)@), kvs@) {
            Ok((v, s)) => r is Ok && r->Ok_0@ == v && tokens_view(final(stack)@) == s,
            Err(e) => r is Err && r->Err_0@ == e,
        },
{
    match arg {
        BoatArg::Const(c) => Ok(c.clone()),
        BoatArg::FromStack => {
            if stack.len() == 0 {
                return Err(RunError::StackUnderflow);
            }
            let ghost before = stack@;
            let v = stack.pop().unwrap();
            proof {
                assert(tokens_view(stack@) =~= tokens_view(before).drop_last());
            }
            Ok(v)
        },
        BoatArg::FromKVS(k) => match kvs.peek(k) {
            None => Err(RunError::UndefinedVariable(k.clone())),
            Some(v) => Ok(v),
        },
    }
}

fn operand_count_of(c: BoatCmd) -> (r: usize)
    ensures
        r == operand_count(c),
{
    match c {
        BoatCmd::Input | BoatCmd::DisplayClear => 0,
        BoatCmd::Push | BoatCmd::Goto | BoatCmd::KVDel | BoatCmd::Sleep => 1,
        _ => 2,
    }
}

proof fn lemma_digits_value_grows(s: Seq<char>, i: int)
    requires
        0 <= i <= s.len(),
        forall|j: int| 0 <= j < s.len() ==> is_digit(#[trigger] s[j]),
    ensures
        digits_value(s.subrange(0, i)) <= digits_value(s),
        0 <= digits_value(s),
    decreases s.len(),
{
    if s.len() > 0 {
        let p = s.drop_last();
        assert forall|j: int| 0 <= j < p.len() implies is_digit(#[trigger] p[j]) by {
            assert(p[j] == s[j]);
        }
        if i < s.len() {
            assert(s.subrange(0, i) =~= p.subrange(0, i));
            lemma_digits_value_grows(p, i);
        } else {
            assert(s.subrange(0, i) =~= s);
            lemma_digits_value_grows(p, 0);
        }
    } else {
        assert(s.subrange(0, i) =~= s);
    }
}

/// The address a token spells, if it is a non-empty run of decimal digits
/// whose value fits in a `usize`.
pub fn parse_address(t: &String) -> (r: Option<usize>)
    ensures
        match parse_addr(t@) {
            Some(a) => if a <= usize::MAX {
                r is Some && r->0 as int == a
            } else {
                r is None
            },
            None => r is None,
        },
{
    let s = t.as_str();
    let n = s.unicode_len();
    if n == 0 {
        return None;
    }
    let mut acc: usize = 0;
    let mut i: usize = 0;
    while i < n
        invariant
            n == t@.len(),
            s@ == t@,
            i <= n,
            forall|j: int| 0 <= j < i ==> is_digit(#[trigger] t@[j]),
            acc == digits_value(t@.subrange(0, i as int)),
        decreases n - i,
    {
        let c = s.get_char(i);
        if !('0' <= c && c <= '9') {
            return None;
        }
        let d = (c as u32 - '0' as u32) as usize;
        proof {
            assert(t@.subrange(0, i + 1).drop_last() =~= t@.subrange(0, i as int));
        }
        if acc > (usize::MAX - d) / 10 {
            proof {
                assert(acc * 10 + d > usize::MAX) by (nonlinear_arith)
                    requires
                        acc > (usize::MAX - d) / 10,
                        d <= 9,
                ;
                let k = i + 1;
                assert forall|j: int| 0 <= j < k implies is_digit(#[trigger] t@[j]) by {}
                let rest_digits = forall|j: int| 0 <= j < t@.len() ==> is_digit(#[trigger] t@[j]);
                if rest_digits {
                    lemma_digits_value_grows(t@, k as int);
                }
            }
            return None;
        }
        acc = acc * 10 + d;
        i = i + 1;
    }
    proof {
        assert(t@.subrange(0, n as int) =~= t@);
    }
    Some(acc)
}

fn bool_text(b: bool) -> (r: String)
    ensures
        r@ == bool_token(b),
{
    proof {
        reveal_strlit("1");
        reveal_strlit("0");
    }
    if b {
        String::from_str("1")
    } else {
        String::from_str("0")
    }
}

impl Machine {
    /// A machine about to run from address 1, with empty stores.
    pub fn new() -> (r: Machine)
        ensures
            r.wf(),
            r@.stack == Seq::<Seq<char>>::empty(),
            r@.vars == Map::<Seq<char>, Seq<Seq<char>>>::empty(),
            r@.ip == 1,
    {
        let r = Machine { stack: Vec::new(), vars: VarStore::new(), ip: 1 };
        proof {
            assert(tokens_view(r.stack@) =~= Seq::<Seq<char>>::empty());
        }
        r
    }

    /// The variable store is well formed.
    pub open spec fn wf(&self) -> bool {
        self.vars.wf()
    }

    /// The current instruction pointer.
    pub fn ip(&self) -> (r: usize)
        ensures
            r == self.ip,
    {
        self.ip
    }

    /// The depth of the operand stack.
    pub fn stack_depth(&self) -> (r: usize)
        ensures
            r == self@.stack.len(),
    {
        self.stack.len()
    }

    /// The depth of a variable's value-stack.
    pub fn variable_depth(&self, name: &String) -> (r: usize)
        requires
            self.wf(),
        ensures
            r == if self@.vars.contains_key(name@) { self@.vars[name@].len() } else { 0 },
    {
        self.vars.depth(name)
    }

    /// The current value of a variable.
    pub fn variable(&self, name: &String) -> (r: Option<String>)
        requires
            self.wf(),
        ensures
            match peek_spec(self@.vars, name@) {
                Some(v) => r is Some && r->0@ == v,
                None => r is None,
            },
    {
        self.vars.peek(name)
    }

    /// Pushes the host's answer to an `Input` or `Compute` effect.
    pub fn deliver(&mut self, value: String)
        ensures
            final(self)@ == (MachineV { stack: old(self)@.stack.push(value@), ..old(self)@ }),
            final(self).wf() == old(self).wf(),
    {
        let ghost before = self.stack@;
        self.stack.push(value);
        proof {
            assert(tokens_view(self.stack@) =~= tokens_view(before).push(value@));
        }
    }

    fn jump(&mut self, t: String) -> (r: Result<Effect, RunError>)
        ensures
            match jump_spec(old(self)@, t@) {
                Ok((m, e)) => r is Ok && r->Ok_0@ == e && final(self)@ == m,
                Err(e) => r is Err && r->Err_0@ == e,
            },
            final(self).wf() == old(self).wf(),
    {
        let ghost m = self@;
        match parse_address(&t) {
            Some(a) => {
                if a >= 1 {
                    self.ip = a;
                    proof {
                        assert(parse_addr(t@) == Some(a as int));
                        assert(self@ == (MachineV { ip: a as int, ..m }));
                    }
                    Ok(Effect::Continue)
                } else {
                    Err(RunError::InvalidAddress(t))
                }
            },
            None => Err(RunError::InvalidAddress(t)),
        }
    }

    fn apply(&mut self, cmd: BoatCmd, v0: String, v1: String) -> (r: Result<Effect, RunError>)
        requires
            old(self).wf(),
            old(self).ip < usize::MAX,
        ensures
            match apply_spec(cmd, v0@, v1@, old(self)@) {
                Ok((m, e)) => r is Ok && r->Ok_0@ == e && final(self)@ == m,
                Err(e) => r is Err && r->Err_0@ == e,
            },
            final(self).wf(),
    {
        match cmd {
            BoatCmd::Goto => {
                return self.jump(v0);
            },
            BoatCmd::Cmp => {
                proof {
                    reveal_strlit("0");
                }
                if v0.as_str().unicode_len() == 1 && v0.as_str().get_char(0) == '0' {
                    proof {
                        assert(v0@ =~= seq!['0']);
                    }
                    return self.jump(v1);
                }
                proof {
                    if v0@ == seq!['0'] {
                        assert(v0@.len() == 1 && v0@[0] == '0');
                    }
                }
                self.ip = self.ip + 1;
                return Ok(Effect::Continue);
            },
            _ => {},
        }
        self.ip = self.ip + 1;
        match cmd {
            BoatCmd::Push => {
                self.deliver(v0);
                Ok(Effect::Continue)
            },
            BoatCmd::Input => Ok(Effect::Input),
            BoatCmd::Output => Ok(Effect::Output { pin: v0, value: v1 }),
            BoatCmd::Add | BoatCmd::Sub | BoatCmd::Mul | BoatCmd::Div | BoatCmd::Lt | BoatCmd::Gt => Ok(
                Effect::Compute { cmd, lhs: v0, rhs: v1 },
            ),
            BoatCmd::Conc => {
                let mut c = v0;
                c.append(v1.as_str());
                self.deliver(c);
                Ok(Effect::Continue)
            },
            BoatCmd::Eq => {
                let b = bool_text(v0 == v1);
                self.deliver(b);
                Ok(Effect::Continue)
            },
            BoatCmd::KVSet => {
                self.vars.push(v0, v1);
                Ok(Effect::Continue)
            },
            BoatCmd::KVReSet => {
                self.vars.replace(v0, v1);
                Ok(Effect::Continue)
            },
            BoatCmd::KVDel => {
                self.vars.pop(v0);
                Ok(Effect::Continue)
            },
            BoatCmd::Sleep => Ok(Effect::Sleep(v0)),
            BoatCmd::Display => Ok(Effect::Display { x: v0, y: v1 }),
            BoatCmd::DisplayClear => Ok(Effect::DisplayClear),
            BoatCmd::Goto | BoatCmd::Cmp => Ok(Effect::Continue),
        }
    }

    /// Runs one instruction of `program`, or reports that the machine has
    /// halted; says what the host has to do next.
    pub fn step(&mut self, program: &Vec<BoatIns>) -> (r: Result<Effect, RunError>)
        requires
            old(self).wf(),
            program@.len() < usize::MAX,
        ensures
            final(self).wf(),
            match step_spec(code_view(program@), old(self)@) {
                Ok((m, e)) => r is Ok && r->Ok_0@ == e && final(self)@ == m,
                Err(e) => r is Err && r->Err_0@ == e,
            },
    {
        if self.ip == 0 || self.ip > program.len() {
            return Ok(Effect::Halt);
        }
        let ins = &program[self.ip - 1];
        proof {
            assert(code_view(program@)[self.ip - 1] == ins@);
        }
        let n = operand_count_of(ins.cmd);
        if ins.args.len() < n {
            return Err(RunError::MissingOperand);
        }
        let mut v0 = String::new();
        let mut v1 = String::new();
        if n >= 1 {
            proof {
                assert(ins@.args[0] == ins.args@[0]@);
            }
            v0 = match get_arg(&ins.args[0], &mut self.stack, &self.vars) {
                Err(e) => {
                    return Err(e);
                },
                Ok(v) => v,
            };
        }
        if n >= 2 {
            proof {
                assert(ins@.args[1] == ins.args@[1]@);
            }
            v1 = match get_arg(&ins.args[1], &mut self.stack, &self.vars) {
                Err(e) => {
                    return Err(e);
                },
                Ok(v) => v,
            };
        }
        self.apply(ins.cmd, v0, v1)
    }
}

} // verus!
