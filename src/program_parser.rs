use vstd::prelude::*;
use vstd::string::StringExecFns;
use crate::boat_instructions::BoatCmd;
use crate::boat_program::{Block, FunV, Function, Functions, Lowering, Program};

verus! {

/// The direction and number of a declared pin.
#[derive(Debug, Clone, Copy, PartialEq, Eq, Structural)]
pub enum PinType {
    In(u32),
    Out(u32),
}

/// A pin declaration: a name bound to a pin.
#[derive(Debug)]
pub struct PinDefinition {
    pub name: String,
    pub pin: PinType,
}

/// How calls of a declared pin are lowered.
pub open spec fn pin_lowering(p: PinType) -> Lowering {
    match p {
        PinType::In(n) => Lowering::InputPin(n),
        PinType::Out(n) => Lowering::OutputPin(n),
    }
}

/// The table entry of a pin declaration.
pub open spec fn pin_entry(d: PinDefinition) -> (Seq<char>, FunV) {
    (d.name@, FunV::Predefined { translator: pin_lowering(d.pin) })
}

/// The built-ins, bound after the pins: `sleep`, `display`, `dclear`,
/// `out` and `in`, each lowered to one instruction of its opcode.
pub open spec fn builtin_entries() -> Seq<(Seq<char>, FunV)> {
    seq![
        (seq!['s', 'l', 'e', 'e', 'p'], FunV::Predefined { translator: Lowering::Command(BoatCmd::Sleep) }),
        (
            seq!['d', 'i', 's', 'p', 'l', 'a', 'y'],
            FunV::Predefined { translator: Lowering::Command(BoatCmd::Display) },
        ),
        (
            seq!['d', 'c', 'l', 'e', 'a', 'r'],
            FunV::Predefined { translator: Lowering::Command(BoatCmd::DisplayClear) },
        ),
        (seq!['o', 'u', 't'], FunV::Predefined { translator: Lowering::Command(BoatCmd::Output) }),
        (seq!['i', 'n'], FunV::Predefined { translator: Lowering::Command(BoatCmd::Input) }),
    ]
}

/// The table that a program starts from: its pins in order of
/// declaration, then the built-ins.
pub open spec fn initial_table(defs: Seq<PinDefinition>) -> Seq<(Seq<char>, FunV)> {
    defs.map_values(|d: PinDefinition| pin_entry(d)) + builtin_entries()
}

fn builtin(functions: &mut Functions, name: &str, cmd: BoatCmd)
    ensures
        final(functions)@ == old(functions)@.push(
            (name@, FunV::Predefined { translator: Lowering::Command(cmd) }),
        ),
{
    functions.insert(String::from_str(name), Function::Predefined { translator: Lowering::Command(cmd) });
}

/// A program of the given top-level block, whose function table binds the
/// declared pins and the built-ins.
pub fn parse_program(definitions: Vec<PinDefinition>, block: Block) -> (r: Program)
    ensures
        r.functions@ == initial_table(definitions@),
        r.block == block,
{
    let mut functions = Functions::new();
    let mut i: usize = 0;
    while i < definitions.len()
        invariant
            i <= definitions@.len(),
            functions@ == definitions@.subrange(0, i as int).map_values(|d: PinDefinition| pin_entry(d)),
        decreases definitions@.len() - i,
    {
        let d = &definitions[i];
        let translator = match d.pin {
            PinType::In(n) => Lowering::InputPin(n),
            PinType::Out(n) => Lowering::OutputPin(n),
        };
        functions.insert(d.name.clone(), Function::Predefined { translator });
        i = i + 1;
        proof {
            assert(functions@ =~= definitions@.subrange(0, i as int).map_values(|d: PinDefinition| pin_entry(d)));
        }
    }
    proof {
        assert(definitions@.subrange(0, i as int) =~= definitions@);
        reveal_strlit("sleep");
        reveal_strlit("display");
        reveal_strlit("dclear");
        reveal_strlit("out");
        reveal_strlit("in");
        assert("sleep"@ =~= seq!['s', 'l', 'e', 'e', 'p']);
        assert("display"@ =~= seq!['d', 'i', 's', 'p', 'l', 'a', 'y']);
        assert("dclear"@ =~= seq!['d', 'c', 'l', 'e', 'a', 'r']);
        assert("out"@ =~= seq!['o', 'u', 't']);
        assert("in"@ =~= seq!['i', 'n']);
    }
    let ghost pins = functions@;
    builtin(&mut functions, "sleep", BoatCmd::Sleep);
    builtin(&mut functions, "display", BoatCmd::Display);
    builtin(&mut functions, "dclear", BoatCmd::DisplayClear);
    builtin(&mut functions, "out", BoatCmd::Output);
    builtin(&mut functions, "in", BoatCmd::Input);
    proof {
        assert(functions@ =~= pins + builtin_entries());
    }
    Program { functions, block }
}

} // verus!
