use vstd::prelude::*;
use vstd::string::StringExecFns;

verus! {

/// The opcodes of the bytecode.
#[derive(Debug, Clone, Copy, PartialEq, Eq, Structural)]
pub enum BoatCmd {
    /// Push a value on top of the operand stack.
    Push,
    /// Jump to an address.
    Goto,
    /// Read one line from a pin and push it.
    Input,
    /// Send the second operand to the pin named by the first.
    Output,
    Add,
    Sub,
    Mul,
    Div,
    /// Push the concatenation of two values.
    Conc,
    /// Overwrite the top of a variable's value-stack.
    KVReSet,
    /// Push a value on a variable's value-stack.
    KVSet,
    /// Pop the top of a variable's value-stack.
    KVDel,
    /// Jump to the second operand when the first is the token `0`.
    Cmp,
    Lt,
    Eq,
    Gt,
    /// Wait for a duration.
    Sleep,
    /// Paint a display pixel.
    Display,
    /// Clear the display.
    DisplayClear,
}

/// Where an operand's value comes from.
#[derive(Debug, Clone, PartialEq, Eq)]
pub enum BoatArg {
    /// Popped from the operand stack.
    FromStack,
    /// A literal token.
    Const(String),
    /// The top of the named variable's value-stack.
    FromKVS(String),
}

/// One instruction: an opcode and its operands.
#[derive(Debug, Clone, PartialEq, Eq)]
pub struct BoatIns {
    pub cmd: BoatCmd,
    pub args: Vec<BoatArg>,
}

/// The value of an operand.
pub enum ArgV {
    FromStack,
    Const(Seq<char>),
    FromKVS(Seq<char>),
}

/// The value of an instruction.
pub struct InsV {
    pub cmd: BoatCmd,
    pub args: Seq<ArgV>,
}

impl View for BoatArg {
    type V = ArgV;

    open spec fn view(&self) -> ArgV {
        match self {
            BoatArg::FromStack => ArgV::FromStack,
            BoatArg::Const(s) => ArgV::Const(s@),
            BoatArg::FromKVS(s) => ArgV::FromKVS(s@),
        }
    }
}

impl View for BoatIns {
    type V = InsV;

    open spec fn view(&self) -> InsV {
        InsV { cmd: self.cmd, args: args_view(self.args@) }
    }
}

/// The values of a list of operands.
pub open spec fn args_view(a: Seq<BoatArg>) -> Seq<ArgV> {
    a.map_values(|x: BoatArg| x@)
}

/// The values of a list of instructions.
pub open spec fn code_view(p: Seq<BoatIns>) -> Seq<InsV> {
    p.map_values(|i: BoatIns| i@)
}

/// Appending an instruction appends its value.
pub proof fn lemma_code_view_push(p: Seq<BoatIns>, i: BoatIns)
    ensures
        code_view(p.push(i)) == code_view(p).push(i@),
{
    assert(code_view(p.push(i)) =~= code_view(p).push(i@));
}

/// Patching an instruction patches its value.
pub proof fn lemma_code_view_update(p: Seq<BoatIns>, k: int, i: BoatIns)
    requires
        0 <= k < p.len(),
    ensures
        code_view(p.update(k, i)) == code_view(p).update(k, i@),
{
    assert(code_view(p.update(k, i)) =~= code_view(p).update(k, i@));
}

impl BoatArg {
    /// A copy of this operand.
    pub fn duplicate(&self) -> (r: BoatArg)
        ensures
            r == *self,
    {
        match self {
            BoatArg::FromStack => BoatArg::FromStack,
            BoatArg::Const(s) => BoatArg::Const(s.clone()),
            BoatArg::FromKVS(s) => BoatArg::FromKVS(s.clone()),
        }
    }
}

/// The mnemonic of an opcode.
pub open spec fn cmd_text(c: BoatCmd) -> Seq<char> {
    match c {
        BoatCmd::Push => seq!['p'],
        BoatCmd::Goto => seq!['g'],
        BoatCmd::Input => seq!['i'],
        BoatCmd::Output => seq!['o'],
        BoatCmd::Add => seq!['+'],
        BoatCmd::Sub => seq!['-'],
        BoatCmd::Mul => seq!['*'],
        BoatCmd::Div => seq!['/'],
        BoatCmd::Conc => seq!['.', '.'],
        BoatCmd::KVSet => seq!['k', 'a'],
        BoatCmd::KVDel => seq!['k', 'd'],
        BoatCmd::KVReSet => seq!['k', 'r'],
        BoatCmd::Cmp => seq!['c'],
        BoatCmd::Eq => seq!['='],
        BoatCmd::Lt => seq!['<'],
        BoatCmd::Gt => seq!['>'],
        BoatCmd::Sleep => seq!['s'],
        BoatCmd::Display => seq!['d', 'i'],
        BoatCmd::DisplayClear => seq!['d', 'c'],
    }
}

/// The text of an operand: `$` for the stack, the token itself for a
/// constant, `$name` for a variable.
pub open spec fn arg_text(a: BoatArg) -> Seq<char> {
    match a {
        BoatArg::FromStack => seq!['$'],
        BoatArg::Const(s) => s@,
        BoatArg::FromKVS(s) => seq!['$'] + s@,
    }
}

/// The operands' texts joined by single spaces.
pub open spec fn args_text(args: Seq<BoatArg>) -> Seq<char>
    decreases args.len(),
{
    if args.len() == 0 {
        Seq::empty()
    } else if args.len() == 1 {
        arg_text(args[0])
    } else {
        args_text(args.drop_last()) + seq![' '] + arg_text(args.last())
    }
}

/// The text of an instruction: its mnemonic, then a space and its operands
/// if it has any.
pub open spec fn ins_text(i: BoatIns) -> Seq<char> {
    if i.args@.len() == 0 {
        cmd_text(i.cmd)
    } else {
        cmd_text(i.cmd) + seq![' '] + args_text(i.args@)
    }
}

/// The compact encoding: each instruction followed by `;`.
pub open spec fn compact_text(p: Seq<BoatIns>) -> Seq<char>
    decreases p.len(),
{
    if p.len() == 0 {
        Seq::empty()
    } else {
        compact_text(p.drop_last()) + ins_text(p.last()) + seq![';']
    }
}

/// The character of a decimal digit.
pub open spec fn digit_char(d: nat) -> char {
    if d == 0 { '0' }
    else if d == 1 { '1' }
    else if d == 2 { '2' }
    else if d == 3 { '3' }
    else if d == 4 { '4' }
    else if d == 5 { '5' }
    else if d == 6 { '6' }
    else if d == 7 { '7' }
    else if d == 8 { '8' }
    else { '9' }
}

/// The decimal text of a natural number, without leading zeros.
pub open spec fn dec(n: nat) -> Seq<char>
    decreases n,
{
    if n < 10 {
        seq![digit_char(n)]
    } else {
        dec(n / 10).push(digit_char(n % 10))
    }
}

/// `n` spaces.
pub open spec fn spaces(n: nat) -> Seq<char> {
    Seq::new(n, |i: int| ' ')
}

/// The address column of the pretty listing: the address, right-aligned to
/// the width of the instruction count.
pub open spec fn padded(n: nat, width: nat) -> Seq<char> {
    if dec(n).len() < width {
        spaces((width - dec(n).len()) as nat) + dec(n)
    } else {
        dec(n)
    }
}

/// The annotated encoding: each instruction as `|address|instruction;`,
/// with addresses from 1.
pub open spec fn annotated_text(p: Seq<BoatIns>) -> Seq<char>
    decreases p.len(),
{
    if p.len() == 0 {
        Seq::empty()
    } else {
        annotated_text(p.drop_last()) + seq!['|'] + dec(p.len()) + seq!['|'] + ins_text(p.last())
            + seq![';']
    }
}

/// The pretty listing: one line per instruction, `address|instruction;`,
/// the addresses right-aligned to a common width.
pub open spec fn pretty_text(p: Seq<BoatIns>, width: nat) -> Seq<char>
    decreases p.len(),
{
    if p.len() == 0 {
        Seq::empty()
    } else if p.len() == 1 {
        padded(1, width) + seq!['|'] + ins_text(p[0]) + seq![';']
    } else {
        pretty_text(p.drop_last(), width) + seq!['\n'] + padded(p.len(), width) + seq!['|']
            + ins_text(p.last()) + seq![';']
    }
}

fn digit_str(d: u32) -> (r: &'static str)
    requires
        d < 10,
    ensures
        r@ == seq![digit_char(d as nat)],
{
    proof {
        reveal_strlit("0");
        reveal_strlit("1");
        reveal_strlit("2");
        reveal_strlit("3");
        reveal_strlit("4");
        reveal_strlit("5");
        reveal_strlit("6");
        reveal_strlit("7");
        reveal_strlit("8");
        reveal_strlit("9");
    }
    if d == 0 { "0" }
    else if d == 1 { "1" }
    else if d == 2 { "2" }
    else if d == 3 { "3" }
    else if d == 4 { "4" }
    else if d == 5 { "5" }
    else if d == 6 { "6" }
    else if d == 7 { "7" }
    else if d == 8 { "8" }
    else { "9" }
}

/// The decimal text of `n`.
pub fn decimal_text(n: u64) -> (r: String)
    ensures
        r@ == dec(n as nat),
    decreases n,
{
    if n < 10 {
        String::from_str(digit_str(n as u32))
    } else {
        let mut s = decimal_text(n / 10);
        s.append(digit_str((n % 10) as u32));
        s
    }
}

/// The text of an opcode.
pub fn cmd_to_string(c: BoatCmd) -> (r: String)
    ensures
        r@ == cmd_text(c),
{
    let s: &str = match c {
        BoatCmd::Push => "p",
        BoatCmd::Goto => "g",
        BoatCmd::Input => "i",
        BoatCmd::Output => "o",
        BoatCmd::Add => "+",
        BoatCmd::Sub => "-",
        BoatCmd::Mul => "*",
        BoatCmd::Div => "/",
        BoatCmd::Conc => "..",
        BoatCmd::KVSet => "ka",
        BoatCmd::KVDel => "kd",
        BoatCmd::KVReSet => "kr",
        BoatCmd::Cmp => "c",
        BoatCmd::Eq => "=",
        BoatCmd::Lt => "<",
        BoatCmd::Gt => ">",
        BoatCmd::Sleep => "s",
        BoatCmd::Display => "di",
        BoatCmd::DisplayClear => "dc",
    };
    proof {
        reveal_strlit("p");
        reveal_strlit("g");
        reveal_strlit("i");
        reveal_strlit("o");
        reveal_strlit("+");
        reveal_strlit("-");
        reveal_strlit("*");
        reveal_strlit("/");
        reveal_strlit("..");
        reveal_strlit("ka");
        reveal_strlit("kd");
        reveal_strlit("kr");
        reveal_strlit("c");
        reveal_strlit("=");
        reveal_strlit("<");
        reveal_strlit(">");
        reveal_strlit("s");
        reveal_strlit("di");
        reveal_strlit("dc");
    }
    String::from_str(s)
}

impl BoatArg {
    /// The text of this operand.
    pub fn to_string(&self) -> (r: String)
        ensures
            r@ == arg_text(*self),
    {
        proof {
            reveal_strlit("$");
        }
        match self {
            BoatArg::FromStack => String::from_str("$"),
            BoatArg::Const(s) => s.clone(),
            BoatArg::FromKVS(s) => {
                let mut r = String::from_str("$");
                r.append(s.as_str());
                r
            },
        }
    }
}

impl BoatIns {
    /// The text of this instruction.
    pub fn to_string(&self) -> (r: String)
        ensures
            r@ == ins_text(*self),
    {
        let mut r = cmd_to_string(self.cmd);
        if self.args.len() == 0 {
            return r;
        }
        proof {
            reveal_strlit(" ");
        }
        r.append(" ");
        let ghost head = r@;
        let first = self.args[0].to_string();
        r.append(first.as_str());
        proof {
            assert(self.args@.subrange(0, 1)[0] == self.args@[0]);
        }
        let mut i: usize = 1;
        while i < self.args.len()
            invariant
                1 <= i <= self.args@.len(),
                r@ == head + args_text(self.args@.subrange(0, i as int)),
            decreases self.args@.len() - i,
        {
            proof {
                let s = self.args@.subrange(0, i as int + 1);
                assert(s.drop_last() =~= self.args@.subrange(0, i as int));
            }
            let ghost prev = r@;
            proof {
                reveal_strlit(" ");
            }
            r.append(" ");
            let a = self.args[i].to_string();
            r.append(a.as_str());
            proof {
                let s = self.args@.subrange(0, i as int + 1);
                assert(s.last() == self.args@[i as int]);
                assert(args_text(s) == args_text(s.drop_last()) + seq![' '] + arg_text(s.last()));
                assert(r@ =~= prev + seq![' '] + arg_text(self.args@[i as int]));
                assert(r@ =~= head + args_text(s));
            }
            i = i + 1;
        }
        proof {
            assert(self.args@.subrange(0, i as int) =~= self.args@);
        }
        r
    }
}

/// The compact encoding of a program: each instruction followed by `;`.
pub fn translated_to_string(inses: Vec<BoatIns>) -> (r: String)
    ensures
        r@ == compact_text(inses@),
{
    let mut r = String::new();
    let mut i: usize = 0;
    proof {
        reveal_strlit(";");
        assert(inses@.subrange(0, 0) =~= Seq::<BoatIns>::empty());
    }
    while i < inses.len()
        invariant
            i <= inses@.len(),
            r@ == compact_text(inses@.subrange(0, i as int)),
        decreases inses@.len() - i,
    {
        proof {
            assert(inses@.subrange(0, i as int + 1).drop_last() =~= inses@.subrange(0, i as int));
        }
        let ghost prev = r@;
        proof {
            reveal_strlit(";");
        }
        let t = inses[i].to_string();
        r.append(t.as_str());
        r.append(";");
        proof {
            let p = inses@.subrange(0, i as int + 1);
            assert(p.last() == inses@[i as int]);
            assert(r@ =~= compact_text(p.drop_last()) + ins_text(p.last()) + seq![';']);
        }
        i = i + 1;
    }
    proof {
        assert(inses@.subrange(0, i as int) =~= inses@);
    }
    r
}

/// The annotated encoding of a program. Pretty: one line per instruction,
/// `address|instruction;`, addresses right-aligned to the width of the
/// instruction count. Otherwise `|address|instruction;` runs back to back.
pub fn translated_to_string2(inses: Vec<BoatIns>, preety: bool) -> (r: String)
    requires
        inses@.len() < u64::MAX,
    ensures
        preety ==> r@ == pretty_text(inses@, dec(inses@.len()).len()),
        !preety ==> r@ == annotated_text(inses@),
{
    let n = inses.len();
    let width = decimal_text(n as u64).as_str().unicode_len();
    let ghost w: nat = dec(n as nat).len();
    let mut r = String::new();
    let mut i: usize = 0;
    proof {
        reveal_strlit("|");
        reveal_strlit("\n");
        reveal_strlit(" ");
        assert(inses@.subrange(0, 0) =~= Seq::<BoatIns>::empty());
    }
    while i < n
        invariant
            n == inses@.len(),
            n < u64::MAX,
            width == w,
            i <= n,
            preety ==> r@ == pretty_text(inses@.subrange(0, i as int), w),
            !preety ==> r@ == annotated_text(inses@.subrange(0, i as int)),
        decreases n - i,
    {
        proof {
            assert(inses@.subrange(0, i as int + 1).drop_last() =~= inses@.subrange(0, i as int));
        }
        proof {
            reveal_strlit("|");
            reveal_strlit("\n");
            reveal_strlit(" ");
            reveal_strlit(";");
        }
        let addr = decimal_text((i + 1) as u64);
        let t = inses[i].to_string();
        if preety {
            if i > 0 {
                r.append("\n");
            }
            let len = addr.as_str().unicode_len();
            let mut k: usize = len;
            let ghost before = r@;
            while k < width
                invariant
                    len <= k,
                    k <= width || len > width,
                    len >= width ==> k == len,
                    len == dec((i + 1) as nat).len(),
                    r@ == before + spaces((k - len) as nat),
                decreases width - k,
            {
                let ghost prev = r@;
                proof {
                    reveal_strlit(" ");
                }
                r.append(" ");
                k = k + 1;
                proof {
                    assert(spaces((k - len) as nat) =~= spaces((k - 1 - len) as nat) + seq![' ']);
                    assert(r@ =~= before + spaces((k - len) as nat));
                }
            }
            proof {
                if len < width {
                    assert(r@ == before + spaces((width - len) as nat));
                } else {
                    assert(k == len);
                    assert(spaces(0) =~= Seq::<char>::empty());
                    assert(r@ =~= before);
                }
            }
            r.append(addr.as_str());
            r.append("|");
            r.append(t.as_str());
            r.append(";");
            proof {
                let p = inses@.subrange(0, i as int + 1);
                assert(p.last() == inses@[i as int]);
                assert(p.len() == i + 1);
                if i == 0 {
                    assert(p[0] == inses@[0]);
                    assert(r@ =~= padded(1, w) + seq!['|'] + ins_text(p[0]) + seq![';']);
                } else {
                    assert(r@ =~= pretty_text(p.drop_last(), w) + seq!['\n'] + padded(p.len(), w)
                        + seq!['|'] + ins_text(p.last()) + seq![';']);
                }
            }
        } else {
            r.append("|");
            r.append(addr.as_str());
            r.append("|");
            r.append(t.as_str());
            r.append(";");
            proof {
                let p = inses@.subrange(0, i as int + 1);
                assert(p.last() == inses@[i as int]);
                assert(p.len() == i + 1);
                assert(r@ =~= annotated_text(p.drop_last()) + seq!['|'] + dec(p.len()) + seq!['|']
                    + ins_text(p.last()) + seq![';']);
            }
        }
        i = i + 1;
    }
    proof {
        assert(inses@.subrange(0, i as int) =~= inses@);
    }
    r
}

} // verus!
