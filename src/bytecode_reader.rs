use vstd::prelude::*;
use vstd::string::StringExecFns;
use crate::boat_instructions::{
    annotated_text, arg_text, args_text, args_view, cmd_text, code_view, cmd_to_string, dec,
    decimal_text, digit_char, ins_text, padded, pretty_text, spaces, ArgV, BoatArg, BoatCmd,
    BoatIns, InsV,
};
use crate::interpreter::tokens_view;

verus! {

broadcast use vstd::std_specs::vec::group_vec_axioms;

/// `s` cut at every `sep`: one more piece than `s` has separators.
pub open spec fn split(s: Seq<char>, sep: char) -> Seq<Seq<char>>
    decreases s.len(),
{
    if s.len() == 0 {
        seq![Seq::empty()]
    } else {
        let r = split(s.drop_last(), sep);
        if s.last() == sep {
            r.push(Seq::empty())
        } else {
            r.update(r.len() - 1, r.last().push(s.last()))
        }
    }
}

/// The pieces joined by `sep`.
pub open spec fn join(parts: Seq<Seq<char>>, sep: char) -> Seq<char>
    decreases parts.len(),
{
    if parts.len() == 0 {
        Seq::empty()
    } else if parts.len() == 1 {
        parts[0]
    } else {
        join(parts.drop_last(), sep) + seq![sep] + parts.last()
    }
}

/// `s` holds no `sep`.
pub open spec fn free_of(s: Seq<char>, sep: char) -> bool {
    forall|i: int| 0 <= i < s.len() ==> s[i] != sep
}

/// An operand that reads back as itself: a non-empty token without a
/// space or a bar, a constant not starting with `$`, a named variable.
pub open spec fn plain_arg(a: ArgV) -> bool {
    let t = match a {
        ArgV::FromStack => seq!['$'],
        ArgV::Const(c) => c,
        ArgV::FromKVS(n) => seq!['$'] + n,
    };
    free_of(t, ' ') && free_of(t, '|') && match a {
        ArgV::FromStack => true,
        ArgV::Const(c) => c.len() > 0 && c[0] != '$',
        ArgV::FromKVS(n) => n.len() > 0,
    }
}

/// Every operand of every instruction reads back as itself.
pub open spec fn plain_code(p: Seq<InsV>) -> bool {
    forall|i: int, j: int| 0 <= i < p.len() && 0 <= j < p[i].args.len() ==> plain_arg(#[trigger] p[i].args[j])
}

proof fn lemma_split_len(s: Seq<char>, sep: char)
    ensures
        split(s, sep).len() >= 1,
    decreases s.len(),
{
    if s.len() > 0 {
        lemma_split_len(s.drop_last(), sep);
    }
}

proof fn lemma_split_extend(a: Seq<char>, b: Seq<char>, sep: char)
    requires
        free_of(b, sep),
    ensures
        split(a + b, sep).len() == split(a, sep).len(),
        split(a + b, sep) == split(a, sep).update(
            split(a, sep).len() - 1,
            split(a, sep).last() + b,
        ),
    decreases b.len(),
{
    lemma_split_len(a, sep);
    if b.len() == 0 {
        assert(a + b =~= a);
        assert(split(a, sep).last() + b =~= split(a, sep).last());
        assert(split(a, sep).update(split(a, sep).len() - 1, split(a, sep).last()) =~= split(a, sep));
    } else {
        let b1 = b.drop_last();
        lemma_split_extend(a, b1, sep);
        assert((a + b).drop_last() =~= a + b1);
        assert((a + b).last() == b.last());
        let r = split(a + b1, sep);
        assert(r.last() == split(a, sep).last() + b1);
        assert(r.last().push(b.last()) =~= split(a, sep).last() + b);
        assert(split(a + b, sep) =~= split(a, sep).update(split(a, sep).len() - 1, split(a, sep).last() + b));
    }
}

proof fn lemma_split_join(parts: Seq<Seq<char>>, sep: char)
    requires
        parts.len() >= 1,
        forall|i: int| 0 <= i < parts.len() ==> free_of(#[trigger] parts[i], sep),
    ensures
        split(join(parts, sep), sep) == parts,
    decreases parts.len(),
{
    if parts.len() == 1 {
        lemma_split_extend(Seq::empty(), parts[0], sep);
        assert(Seq::<char>::empty() + parts[0] =~= parts[0]);
        assert(split(Seq::<char>::empty(), sep) == seq![Seq::<char>::empty()]);
        assert(Seq::<char>::empty() + parts[0] =~= parts[0]);
        assert(split(join(parts, sep), sep) =~= parts);
    } else {
        let p = parts.drop_last();
        assert forall|i: int| 0 <= i < p.len() implies free_of(#[trigger] p[i], sep) by {
            assert(p[i] == parts[i]);
        }
        lemma_split_join(p, sep);
        let a = join(p, sep) + seq![sep];
        assert(a.drop_last() =~= join(p, sep));
        assert(split(a, sep) == p.push(Seq::empty()));
        assert(free_of(parts[parts.len() - 1], sep));
        lemma_split_extend(a, parts.last(), sep);
        assert(Seq::<char>::empty() + parts.last() =~= parts.last());
        assert(split(join(parts, sep), sep) =~= parts);
    }
}

proof fn lemma_join_split(s: Seq<char>, sep: char)
    ensures
        join(split(s, sep), sep) == s,
    decreases s.len(),
{
    if s.len() > 0 {
        let p = s.drop_last();
        lemma_join_split(p, sep);
        lemma_split_len(p, sep);
        let r = split(p, sep);
        if s.last() == sep {
            assert(r.push(Seq::<char>::empty()).drop_last() =~= r);
            assert(join(split(s, sep), sep) =~= s);
        } else {
            let r2 = r.update(r.len() - 1, r.last().push(s.last()));
            if r.len() == 1 {
                assert(join(r2, sep) =~= s);
            } else {
                assert(r2.drop_last() =~= r.drop_last());
                assert(join(r, sep) == join(r.drop_last(), sep) + seq![sep] + r.last());
                assert(r2.last() == r.last().push(s.last()));
                assert(join(r2, sep) == join(r2.drop_last(), sep) + seq![sep] + r2.last());
                assert(join(r2, sep) =~= join(r, sep).push(s.last()));
                assert(s =~= p.push(s.last()));
            }
        }
    } else {
        assert(join(split(s, sep), sep) =~= s);
    }
}

/// The pieces of an instruction's text: its mnemonic, then its operands.
pub open spec fn ins_tokens(i: InsV) -> Seq<Seq<char>> {
    seq![cmd_text(i.cmd)] + i.args.map_values(|a: ArgV| argv_text(a))
}

/// The text of an operand value.
pub open spec fn argv_text(a: ArgV) -> Seq<char> {
    match a {
        ArgV::FromStack => seq!['$'],
        ArgV::Const(c) => c,
        ArgV::FromKVS(n) => seq!['$'] + n,
    }
}

proof fn lemma_args_text_join(args: Seq<BoatArg>, head: Seq<char>)
    requires
        args.len() >= 1,
    ensures
        join(seq![head] + args.map_values(|a: BoatArg| argv_text(a@)), ' ') == head + seq![' '] + args_text(args),
    decreases args.len(),
{
    let ts = seq![head] + args.map_values(|a: BoatArg| argv_text(a@));
    assert(arg_text(args.last()) == argv_text(args.last()@));
    assert(ts.len() == args.len() + 1);
    assert(ts.last() == argv_text(args.last()@));
    if args.len() == 1 {
        assert(ts.drop_last() =~= seq![head]);
        assert(join(ts.drop_last(), ' ') == head);
        assert(args_text(args) == arg_text(args[0]));
        assert(join(ts, ' ') =~= head + seq![' '] + args_text(args));
    } else {
        let p = args.drop_last();
        lemma_args_text_join(p, head);
        assert(ts.drop_last() =~= seq![head] + p.map_values(|a: BoatArg| argv_text(a@)));
        assert(args_text(args) == args_text(p) + seq![' '] + arg_text(args.last()));
        assert(join(ts, ' ') =~= head + seq![' '] + args_text(args));
    }
}

/// An instruction's text is its pieces joined by spaces.
proof fn lemma_ins_tokens(i: BoatIns)
    ensures
        join(ins_tokens(i@), ' ') == ins_text(i),
{
    let ts = ins_tokens(i@);
    assert(i@.args.map_values(|a: ArgV| argv_text(a)) =~= i.args@.map_values(|a: BoatArg| argv_text(a@)));
    if i.args@.len() == 0 {
        assert(ts =~= seq![cmd_text(i.cmd)]);
    } else {
        lemma_args_text_join(i.args@, cmd_text(i.cmd));
    }
}

/// The pieces of the annotated text between bars: an empty one, then the
/// address and the `;`-terminated text of each instruction.
pub open spec fn fields(p: Seq<BoatIns>) -> Seq<Seq<char>>
    decreases p.len(),
{
    if p.len() == 0 {
        seq![Seq::empty()]
    } else {
        fields(p.drop_last()).push(dec(p.len())).push(ins_text(p.last()) + seq![';'])
    }
}

proof fn lemma_fields(p: Seq<BoatIns>)
    ensures
        fields(p).len() == 2 * p.len() + 1,
        fields(p)[0] == Seq::<char>::empty(),
        forall|k: int| 0 <= k < p.len() ==> #[trigger] fields(p)[2 * k + 1] == dec((k + 1) as nat),
        forall|k: int| 0 <= k < p.len() ==> fields(p)[2 * k + 2] == ins_text(#[trigger] p[k]) + seq![';'],
        join(fields(p), '|') == annotated_text(p),
    decreases p.len(),
{
    if p.len() > 0 {
        let q = p.drop_last();
        lemma_fields(q);
        assert(fields(p) == fields(q).push(dec(p.len())).push(ins_text(p.last()) + seq![';']));
        assert forall|k: int| 0 <= k < p.len() implies #[trigger] fields(p)[2 * k + 1] == dec((k + 1) as nat) by {
            if k < q.len() {
                assert(fields(q)[2 * k + 1] == dec((k + 1) as nat));
            }
        }
        assert forall|k: int| 0 <= k < p.len() implies fields(p)[2 * k + 2] == ins_text(#[trigger] p[k]) + seq![';'] by {
            if k < q.len() {
                assert(q[k] == p[k]);
            }
        }
        let f = fields(q).push(dec(p.len()));
        assert(f.drop_last() =~= fields(q));
        assert(fields(p).drop_last() =~= f);
        assert(join(f, '|') == join(fields(q), '|') + seq!['|'] + dec(p.len()));
        assert(join(fields(p), '|') == join(f, '|') + seq!['|'] + (ins_text(p.last()) + seq![';']));
        assert(join(fields(p), '|') =~= annotated_text(p));
    }
}

proof fn lemma_digits_free(n: nat)
    ensures
        free_of(dec(n), '|'),
    decreases n,
{
    if n >= 10 {
        lemma_digits_free(n / 10);
    }
}

/// A plain instruction's text holds no bar, and its pieces no space.
proof fn lemma_plain_ins(i: BoatIns)
    requires
        forall|j: int| 0 <= j < i@.args.len() ==> plain_arg(#[trigger] i@.args[j]),
    ensures
        free_of(ins_text(i), '|'),
        forall|j: int| 0 <= j < ins_tokens(i@).len() ==> free_of(#[trigger] ins_tokens(i@)[j], ' '),
{
    let ts = ins_tokens(i@);
    assert forall|j: int| 0 <= j < ts.len() implies free_of(#[trigger] ts[j], ' ') && free_of(ts[j], '|') by {
        if j > 0 {
            assert(plain_arg(i@.args[j - 1]));
            assert(ts[j] == argv_text(i@.args[j - 1]));
        }
    }
    lemma_join_free(ts, ' ', '|');
    lemma_ins_tokens(i);
}

proof fn lemma_join_free(parts: Seq<Seq<char>>, sep: char, c: char)
    requires
        sep != c,
        forall|j: int| 0 <= j < parts.len() ==> free_of(#[trigger] parts[j], c),
    ensures
        free_of(join(parts, sep), c),
    decreases parts.len(),
{
    if parts.len() >= 2 {
        let p = parts.drop_last();
        assert forall|j: int| 0 <= j < p.len() implies free_of(#[trigger] p[j], c) by {
            assert(p[j] == parts[j]);
        }
        lemma_join_free(p, sep, c);
        assert(free_of(parts[parts.len() - 1], c));
    } else if parts.len() == 1 {
        assert(free_of(parts[0], c));
    }
}

/// Every operand of an instruction reads back as itself.
pub open spec fn plain_ins(i: InsV) -> bool {
    forall|j: int| 0 <= j < i.args.len() ==> plain_arg(#[trigger] i.args[j])
}

proof fn lemma_cmd_text_free(c: BoatCmd)
    ensures
        free_of(cmd_text(c), ' '),
        cmd_text(c).len() >= 1,
{
}

spec fn cmd_key(c: BoatCmd) -> (char, char) {
    match c {
        BoatCmd::Push => ('p', ' '),
        BoatCmd::Goto => ('g', ' '),
        BoatCmd::Input => ('i', ' '),
        BoatCmd::Output => ('o', ' '),
        BoatCmd::Add => ('+', ' '),
        BoatCmd::Sub => ('-', ' '),
        BoatCmd::Mul => ('*', ' '),
        BoatCmd::Div => ('/', ' '),
        BoatCmd::Conc => ('.', '.'),
        BoatCmd::KVSet => ('k', 'a'),
        BoatCmd::KVDel => ('k', 'd'),
        BoatCmd::KVReSet => ('k', 'r'),
        BoatCmd::Cmp => ('c', ' '),
        BoatCmd::Eq => ('=', ' '),
        BoatCmd::Lt => ('<', ' '),
        BoatCmd::Gt => ('>', ' '),
        BoatCmd::Sleep => ('s', ' '),
        BoatCmd::Display => ('d', 'i'),
        BoatCmd::DisplayClear => ('d', 'c'),
    }
}

proof fn lemma_cmd_key(c: BoatCmd)
    ensures
        cmd_key(c).0 == cmd_text(c)[0],
        cmd_key(c).1 == if cmd_text(c).len() == 2 { cmd_text(c)[1] } else { ' ' },
{
}

proof fn lemma_cmd_text_injective(a: BoatCmd, b: BoatCmd)
    requires
        cmd_text(a) == cmd_text(b),
    ensures
        a == b,
{
    lemma_cmd_key(a);
    lemma_cmd_key(b);
    assert(cmd_key(a) == cmd_key(b));
}

/// `t` cut at every `sep`.
pub fn split_text(t: &str, sep: char) -> (r: Vec<String>)
    ensures
        tokens_view(r@) == split(t@, sep),
{
    let n = t.unicode_len();
    let mut pieces: Vec<String> = Vec::new();
    let mut start: usize = 0;
    let mut i: usize = 0;
    proof {
        assert(t@.subrange(0, 0) =~= Seq::<char>::empty());
        assert(split(t@.subrange(0, 0), sep) =~= tokens_view(pieces@).push(t@.subrange(0, 0)));
    }
    while i < n
        invariant
            n == t@.len(),
            start <= i <= n,
            split(t@.subrange(0, i as int), sep) == tokens_view(pieces@).push(t@.subrange(start as int, i as int)),
        decreases n - i,
    {
        let c = t.get_char(i);
        let ghost pre = t@.subrange(0, i as int);
        proof {
            assert(t@.subrange(0, i + 1).drop_last() =~= pre);
            assert(t@.subrange(0, i + 1).last() == c);
        }
        if c == sep {
            let ghost before = pieces@;
            let ghost old_start = start;
            pieces.push(String::from_str(t.substring_char(start, i)));
            start = i + 1;
            proof {
                assert(tokens_view(pieces@) =~= tokens_view(before).push(t@.subrange(old_start as int, i as int)));
                assert(t@.subrange(start as int, i + 1) =~= Seq::<char>::empty());
                assert(split(t@.subrange(0, i + 1), sep) =~= tokens_view(pieces@).push(t@.subrange(start as int, i + 1)));
            }
        } else {
            proof {
                assert(t@.subrange(start as int, i as int).push(c) =~= t@.subrange(start as int, i + 1));
                assert(split(t@.subrange(0, i + 1), sep) =~= tokens_view(pieces@).push(t@.subrange(start as int, i + 1)));
            }
        }
        i = i + 1;
    }
    let ghost before = pieces@;
    pieces.push(String::from_str(t.substring_char(start, n)));
    proof {
        assert(t@.subrange(0, n as int) =~= t@);
        assert(tokens_view(pieces@) =~= tokens_view(before).push(t@.subrange(start as int, n as int)));
    }
    pieces
}

/// The opcode whose mnemonic is `s`.
pub fn cmd_from_text(s: &String) -> (r: Option<BoatCmd>)
    ensures
        forall|c: BoatCmd| #[trigger] cmd_text(c) == s@ <==> r == Some(c),
{
    let all = [
        BoatCmd::Push,
        BoatCmd::Goto,
        BoatCmd::Input,
        BoatCmd::Output,
        BoatCmd::Add,
        BoatCmd::Sub,
        BoatCmd::Mul,
        BoatCmd::Div,
        BoatCmd::Conc,
        BoatCmd::KVReSet,
        BoatCmd::KVSet,
        BoatCmd::KVDel,
        BoatCmd::Cmp,
        BoatCmd::Lt,
        BoatCmd::Eq,
        BoatCmd::Gt,
        BoatCmd::Sleep,
        BoatCmd::Display,
        BoatCmd::DisplayClear,
    ];
    let mut i: usize = 0;
    while i < 19
        invariant
            i <= 19,
            all@.len() == 19,
            all@ == seq![
                BoatCmd::Push,
                BoatCmd::Goto,
                BoatCmd::Input,
                BoatCmd::Output,
                BoatCmd::Add,
                BoatCmd::Sub,
                BoatCmd::Mul,
                BoatCmd::Div,
                BoatCmd::Conc,
                BoatCmd::KVReSet,
                BoatCmd::KVSet,
                BoatCmd::KVDel,
                BoatCmd::Cmp,
                BoatCmd::Lt,
                BoatCmd::Eq,
                BoatCmd::Gt,
                BoatCmd::Sleep,
                BoatCmd::Display,
                BoatCmd::DisplayClear,
            ],
            forall|j: int| 0 <= j < i ==> cmd_text(#[trigger] all@[j]) != s@,
        decreases 19 - i,
    {
        let c = all[i];
        if cmd_to_string(c) == *s {
            proof {
                assert forall|d: BoatCmd| #[trigger] cmd_text(d) == s@ implies Some(c) == Some(d) by {
                    lemma_cmd_text_injective(c, d);
                }
            }
            return Some(c);
        }
        i = i + 1;
    }
    proof {
        assert forall|d: BoatCmd| #[trigger] cmd_text(d) != s@ by {
            match d {
                BoatCmd::Push => assert(cmd_text(all@[0]) != s@),
                BoatCmd::Goto => assert(cmd_text(all@[1]) != s@),
                BoatCmd::Input => assert(cmd_text(all@[2]) != s@),
                BoatCmd::Output => assert(cmd_text(all@[3]) != s@),
                BoatCmd::Add => assert(cmd_text(all@[4]) != s@),
                BoatCmd::Sub => assert(cmd_text(all@[5]) != s@),
                BoatCmd::Mul => assert(cmd_text(all@[6]) != s@),
                BoatCmd::Div => assert(cmd_text(all@[7]) != s@),
                BoatCmd::Conc => assert(cmd_text(all@[8]) != s@),
                BoatCmd::KVReSet => assert(cmd_text(all@[9]) != s@),
                BoatCmd::KVSet => assert(cmd_text(all@[10]) != s@),
                BoatCmd::KVDel => assert(cmd_text(all@[11]) != s@),
                BoatCmd::Cmp => assert(cmd_text(all@[12]) != s@),
                BoatCmd::Lt => assert(cmd_text(all@[13]) != s@),
                BoatCmd::Eq => assert(cmd_text(all@[14]) != s@),
                BoatCmd::Gt => assert(cmd_text(all@[15]) != s@),
                BoatCmd::Sleep => assert(cmd_text(all@[16]) != s@),
                BoatCmd::Display => assert(cmd_text(all@[17]) != s@),
                BoatCmd::DisplayClear => assert(cmd_text(all@[18]) != s@),
            }
        }
    }
    None
}

/// The operand that a token spells: `$` for the stack, `$name` for a
/// variable, anything else for a constant.
pub fn decode_arg(tok: &String) -> (r: Option<BoatArg>)
    ensures
        r is Some ==> argv_text(r->0@) == tok@,
        forall|a: ArgV| plain_arg(a) && argv_text(a) == tok@ ==> r is Some && r->0@ == a,
{
    let s = tok.as_str();
    let n = s.unicode_len();
    if n == 0 {
        return None;
    }
    let c0 = s.get_char(0);
    if c0 == '$' {
        if n == 1 {
            proof {
                assert forall|a: ArgV| plain_arg(a) && argv_text(a) == tok@ implies a == ArgV::FromStack by {
                    match a {
                        ArgV::Const(c) => assert(c[0] == '$'),
                        ArgV::FromKVS(nm) => assert((seq!['$'] + nm).len() >= 2),
                        _ => {},
                    }
                }
            }
            proof {
                assert(seq!['$'] =~= tok@);
            }
            Some(BoatArg::FromStack)
        } else {
            let name = String::from_str(s.substring_char(1, n));
            proof {
                assert forall|a: ArgV| plain_arg(a) && argv_text(a) == tok@ implies a == ArgV::FromKVS(name@) by {
                    match a {
                        ArgV::Const(c) => assert(c[0] == '$'),
                        ArgV::FromKVS(nm) => assert(nm =~= tok@.subrange(1, n as int)),
                        ArgV::FromStack => assert(tok@.len() == 1),
                    }
                }
            }
            proof {
                assert(seq!['$'] + name@ =~= tok@);
            }
            Some(BoatArg::FromKVS(name))
        }
    } else {
        proof {
            assert forall|a: ArgV| plain_arg(a) && argv_text(a) == tok@ implies a == ArgV::Const(tok@) by {
                match a {
                    ArgV::FromKVS(nm) => assert((seq!['$'] + nm)[0] == '$'),
                    ArgV::FromStack => assert(seq!['$'][0] == '$'),
                    _ => {},
                }
            }
        }
        Some(BoatArg::Const(tok.clone()))
    }
}

proof fn lemma_tokens_split(iv: InsV, field: Seq<char>)
    requires
        plain_ins(iv),
        join(ins_tokens(iv), ' ') == field,
    ensures
        split(field, ' ') == ins_tokens(iv),
{
    let ts = ins_tokens(iv);
    lemma_cmd_text_free(iv.cmd);
    assert forall|j: int| 0 <= j < ts.len() implies free_of(#[trigger] ts[j], ' ') by {
        if j > 0 {
            assert(plain_arg(iv.args[j - 1]));
            assert(ts[j] == argv_text(iv.args[j - 1]));
        }
    }
    lemma_split_join(ts, ' ');
}

/// The instruction that a text spells: its mnemonic and its operands,
/// separated by single spaces.
pub fn decode_ins(field: &String) -> (r: Option<BoatIns>)
    ensures
        r is Some ==> ins_text(r->0) == field@,
        forall|iv: InsV| plain_ins(iv) && join(ins_tokens(iv), ' ') == field@ ==> r is Some && r->0@ == iv,
{
    let tokens = split_text(field.as_str(), ' ');
    proof {
        lemma_split_len(field@, ' ');
        assert forall|iv: InsV| plain_ins(iv) && join(ins_tokens(iv), ' ') == field@ implies tokens_view(tokens@) == ins_tokens(iv) by {
            lemma_tokens_split(iv, field@);
        }
    }
    let cmd = match cmd_from_text(&tokens[0]) {
        None => {
            proof {
                assert forall|iv: InsV| plain_ins(iv) && join(ins_tokens(iv), ' ') == field@ implies false by {
                    assert(tokens_view(tokens@)[0] == cmd_text(iv.cmd));
                }
            }
            return None;
        },
        Some(c) => c,
    };
    let mut args: Vec<BoatArg> = Vec::new();
    let mut j: usize = 1;
    proof {
        assert forall|iv: InsV| plain_ins(iv) && join(ins_tokens(iv), ' ') == field@ implies iv.cmd == cmd
            && args_view(args@) == iv.args.subrange(0, 0) by {
            assert(tokens_view(tokens@)[0] == cmd_text(iv.cmd));
            assert(tokens@[0]@ == cmd_text(iv.cmd));
            assert(args_view(args@) =~= iv.args.subrange(0, 0));
        }
    }
    while j < tokens.len()
        invariant
            1 <= j <= tokens@.len(),
            args@.len() == j - 1,
            tokens_view(tokens@) == split(field@, ' '),
            cmd_text(cmd) == tokens@[0]@,
            forall|x: int| 0 <= x < j - 1 ==> argv_text(#[trigger] args@[x]@) == tokens@[x + 1]@,
            forall|iv: InsV| plain_ins(iv) && join(ins_tokens(iv), ' ') == field@ ==> tokens_view(tokens@) == ins_tokens(iv)
                && iv.cmd == cmd && args_view(args@) == iv.args.subrange(0, j - 1),
        decreases tokens@.len() - j,
    {
        match decode_arg(&tokens[j]) {
            None => {
                proof {
                    assert forall|iv: InsV| plain_ins(iv) && join(ins_tokens(iv), ' ') == field@ implies false by {
                        assert(tokens_view(tokens@)[j as int] == argv_text(iv.args[j - 1]));
                        assert(plain_arg(iv.args[j - 1]));
                    }
                }
                return None;
            },
            Some(a) => {
                let ghost before = args@;
                args.push(a);
                proof {
                    assert forall|iv: InsV| plain_ins(iv) && join(ins_tokens(iv), ' ') == field@ implies args_view(args@) == iv.args.subrange(0, j as int) by {
                        assert(tokens_view(tokens@)[j as int] == argv_text(iv.args[j - 1]));
                        assert(plain_arg(iv.args[j - 1]));
                        assert(args_view(args@) =~= args_view(before).push(a@));
                        assert(iv.args.subrange(0, j as int) =~= iv.args.subrange(0, j - 1).push(iv.args[j - 1]));
                    }
                }
            },
        }
        j = j + 1;
    }
    let r = BoatIns { cmd, args };
    proof {
        assert(ins_tokens(r@) =~= tokens_view(tokens@));
        lemma_join_split(field@, ' ');
        lemma_ins_tokens(r);
        assert forall|iv: InsV| plain_ins(iv) && join(ins_tokens(iv), ' ') == field@ implies r@ == iv by {
            assert(iv.args.subrange(0, iv.args.len() as int) =~= iv.args);
            assert(tokens_view(tokens@).len() == iv.args.len() + 1);
        }
    }
    Some(r)
}

/// The text before a closing `;`, if the text ends with one.
fn strip_terminator(field: &String) -> (r: Option<String>)
    ensures
        match r {
            Some(b) => field@ == b@ + seq![';'],
            None => !(field@.len() > 0 && field@.last() == ';'),
        },
{
    let s = field.as_str();
    let m = s.unicode_len();
    if m == 0 || s.get_char(m - 1) != ';' {
        return None;
    }
    let b = String::from_str(s.substring_char(0, m - 1));
    proof {
        assert(field@ =~= b@ + seq![';']);
    }
    Some(b)
}

/// The program that an annotated text spells, each instruction as
/// `|address|instruction;` with addresses 1, 2, ... in order. Reading back
/// the annotated text of a program whose operands read back as themselves
/// gives the program.
pub fn parse_annotated(t: &String) -> (r: Option<Vec<BoatIns>>)
    ensures
        r is Some ==> annotated_text(r->0@) == t@,
        forall|q: Seq<BoatIns>| plain_code(code_view(q)) && annotated_text(q) == t@ ==> r is Some && code_view(r->0@)
            == code_view(q),
{
    let fields_found = split_text(t.as_str(), '|');
    proof {
        assert forall|q: Seq<BoatIns>| plain_code(code_view(q)) && annotated_text(q) == t@ implies tokens_view(fields_found@) == fields(q) by {
            lemma_fields(q);
            let f = fields(q);
            assert forall|i: int| 0 <= i < f.len() implies free_of(#[trigger] f[i], '|') by {
                if i > 0 {
                    let k = (i - 1) / 2;
                    if i % 2 == 1 {
                        assert(i == 2 * k + 1);
                        lemma_digits_free((k + 1) as nat);
                    } else {
                        assert(i == 2 * k + 2);
                        assert(plain_ins(code_view(q)[k])) by {
                            assert forall|j: int| 0 <= j < code_view(q)[k].args.len() implies plain_arg(#[trigger] code_view(q)[k].args[j]) by {
                                assert(plain_arg(code_view(q)[k].args[j]));
                            }
                        }
                        assert(code_view(q)[k] == q[k]@);
                        lemma_plain_ins(q[k]);
                        assert(f[i] == ins_text(q[k]) + seq![';']);
                    }
                }
            }
            lemma_split_join(f, '|');
        }
    }
    let total = fields_found.len();
    if total % 2 != 1 || fields_found[0].as_str().unicode_len() != 0 {
        proof {
            assert forall|q: Seq<BoatIns>| plain_code(code_view(q)) && annotated_text(q) == t@ implies false by {
                lemma_fields(q);
            }
        }
        return None;
    }
    let n = total / 2;
    let mut out: Vec<BoatIns> = Vec::new();
    let mut k: usize = 0;
    proof {
        assert forall|q: Seq<BoatIns>| plain_code(code_view(q)) && annotated_text(q) == t@ implies q.len() == n
            && code_view(out@) == code_view(q).subrange(0, 0) by {
            lemma_fields(q);
            assert(code_view(out@) =~= code_view(q).subrange(0, 0));
        }
    }
    while k < n
        invariant
            total == fields_found@.len(),
            n == total / 2,
            total % 2 == 1,
            k <= n,
            out@.len() == k,
            tokens_view(fields_found@) == split(t@, '|'),
            fields_found@[0]@ == Seq::<char>::empty(),
            forall|j: int| 0 <= j < k ==> #[trigger] fields_found@[2 * j + 1]@ == dec((j + 1) as nat),
            forall|j: int| 0 <= j < k ==> fields_found@[2 * j + 2]@ == ins_text(#[trigger] out@[j]) + seq![';'],
            forall|q: Seq<BoatIns>| plain_code(code_view(q)) && annotated_text(q) == t@ ==> tokens_view(fields_found@) == fields(q)
                && q.len() == n && code_view(out@) == code_view(q).subrange(0, k as int),
        decreases n - k,
    {
        let addr = decimal_text((k + 1) as u64);
        if fields_found[2 * k + 1] != addr {
            proof {
                assert forall|q: Seq<BoatIns>| plain_code(code_view(q)) && annotated_text(q) == t@ implies false by {
                    lemma_fields(q);
                    assert(fields(q)[2 * k + 1] == dec((k + 1) as nat));
                }
            }
            return None;
        }
        let body = match strip_terminator(&fields_found[2 * k + 2]) {
            None => {
                proof {
                    assert forall|q: Seq<BoatIns>| plain_code(code_view(q)) && annotated_text(q) == t@ implies false by {
                        lemma_fields(q);
                        assert(fields(q)[2 * k + 2] == ins_text(q[k as int]) + seq![';']);
                        assert((ins_text(q[k as int]) + seq![';']).last() == ';');
                    }
                }
                return None;
            },
            Some(b) => b,
        };
        proof {
            assert forall|q: Seq<BoatIns>| plain_code(code_view(q)) && annotated_text(q) == t@ implies body@ == ins_text(q[k as int]) by {
                lemma_fields(q);
                assert(fields(q)[2 * k + 2] == ins_text(q[k as int]) + seq![';']);
                assert((ins_text(q[k as int]) + seq![';']).drop_last() =~= ins_text(q[k as int]));
            }
        }
        match decode_ins(&body) {
            None => {
                proof {
                    assert forall|q: Seq<BoatIns>| plain_code(code_view(q)) && annotated_text(q) == t@ implies false by {
                        assert(body@ == ins_text(q[k as int]));
                        lemma_ins_tokens(q[k as int]);
                        assert(code_view(q)[k as int] == q[k as int]@);
                        assert(plain_ins(q[k as int]@)) by {
                            assert forall|j: int| 0 <= j < q[k as int]@.args.len() implies plain_arg(#[trigger] q[k as int]@.args[j]) by {
                                assert(plain_arg(code_view(q)[k as int].args[j]));
                            }
                        }
                    }
                }
                return None;
            },
            Some(ins) => {
                let ghost before = out@;
                let ghost field_k = fields_found@[2 * k + 2]@;
                out.push(ins);
                proof {
                    assert(fields_found@[2 * k + 1]@ == dec((k + 1) as nat));
                    assert(ins_text(ins) + seq![';'] == fields_found@[2 * k + 2]@);
                    assert forall|j: int| 0 <= j < k + 1 implies #[trigger] fields_found@[2 * j + 1]@ == dec((j + 1) as nat) by {
                        if j < k {
                            assert(fields_found@[2 * j + 1]@ == dec((j + 1) as nat));
                        }
                    }
                    assert forall|j: int| 0 <= j < k + 1 implies fields_found@[2 * j + 2]@ == ins_text(#[trigger] out@[j]) + seq![';'] by {
                        if j < k {
                            assert(out@[j] == before[j]);
                        } else {
                            assert(out@[j] == ins);
                        }
                    }
                    assert forall|q: Seq<BoatIns>| plain_code(code_view(q)) && annotated_text(q) == t@ implies code_view(out@) == code_view(q).subrange(0, k + 1) by {
                        assert(body@ == ins_text(q[k as int]));
                        lemma_ins_tokens(q[k as int]);
                        assert(code_view(q)[k as int] == q[k as int]@);
                        assert(plain_ins(q[k as int]@)) by {
                            assert forall|j: int| 0 <= j < q[k as int]@.args.len() implies plain_arg(#[trigger] q[k as int]@.args[j]) by {
                                assert(plain_arg(code_view(q)[k as int].args[j]));
                            }
                        }
                        assert(code_view(out@) =~= code_view(before).push(ins@));
                        assert(code_view(q).subrange(0, k + 1) =~= code_view(q).subrange(0, k as int).push(code_view(q)[k as int]));
                    }
                }
            },
        }
        k = k + 1;
    }
    proof {
        assert forall|q: Seq<BoatIns>| plain_code(code_view(q)) && annotated_text(q) == t@ implies code_view(out@) == code_view(q) by {
            assert(code_view(q).subrange(0, n as int) =~= code_view(q));
        }
        lemma_fields(out@);
        assert forall|i: int| 0 <= i < fields(out@).len() implies fields(out@)[i] == tokens_view(fields_found@)[i] by {
            if i > 0 {
                let j = (i - 1) / 2;
                if i % 2 == 1 {
                    assert(i == 2 * j + 1);
                    assert(fields_found@[2 * j + 1]@ == dec((j + 1) as nat));
                } else {
                    assert(i == 2 * j + 2);
                    assert(ins_text(out@[j]) + seq![';'] == fields_found@[2 * j + 2]@);
                }
            }
        }
        assert(fields(out@) =~= tokens_view(fields_found@));
        lemma_join_split(t@, '|');
    }
    Some(out)
}

/// No operand text of the code holds a line break.
pub open spec fn single_line_code(p: Seq<InsV>) -> bool {
    forall|i: int, j: int| 0 <= i < p.len() && 0 <= j < p[i].args.len() ==> free_of(
        argv_text(#[trigger] p[i].args[j]),
        '\n',
    )
}

/// The lines of the pretty listing, with `width` the width of the address
/// column.
pub open spec fn listing_lines(p: Seq<BoatIns>, width: nat) -> Seq<Seq<char>>
    decreases p.len(),
{
    if p.len() == 0 {
        Seq::empty()
    } else {
        listing_lines(p.drop_last(), width).push(
            padded(p.len(), width) + seq!['|'] + (ins_text(p.last()) + seq![';']),
        )
    }
}

proof fn lemma_listing_lines(p: Seq<BoatIns>, width: nat)
    ensures
        listing_lines(p, width).len() == p.len(),
        forall|k: int| 0 <= k < p.len() ==> #[trigger] listing_lines(p, width)[k] == padded((k + 1) as nat, width)
            + seq!['|'] + (ins_text(p[k]) + seq![';']),
        p.len() >= 1 ==> join(listing_lines(p, width), '\n') == pretty_text(p, width),
    decreases p.len(),
{
    if p.len() > 0 {
        let q = p.drop_last();
        lemma_listing_lines(q, width);
        let l = listing_lines(p, width);
        assert(l.drop_last() =~= listing_lines(q, width));
        assert forall|k: int| 0 <= k < p.len() implies #[trigger] listing_lines(p, width)[k] == padded((k + 1) as nat, width)
            + seq!['|'] + (ins_text(p[k]) + seq![';']) by {
            if k < q.len() {
                assert(l[k] == listing_lines(q, width)[k]);
                assert(q[k] == p[k]);
            }
        }
        if p.len() == 1 {
            assert(p[0] == p.last());
            assert(padded(1, width) + seq!['|'] + (ins_text(p[0]) + seq![';']) =~= padded(1, width) + seq!['|']
                + ins_text(p[0]) + seq![';']);
        } else {
            assert(join(l, '\n') == join(l.drop_last(), '\n') + seq!['\n'] + l.last());
            assert(join(l, '\n') =~= pretty_text(p, width));
        }
    }
}

proof fn lemma_dec_digits(n: nat)
    ensures
        forall|i: int| 0 <= i < dec(n).len() ==> '0' <= #[trigger] dec(n)[i] <= '9',
    decreases n,
{
    if n >= 10 {
        lemma_dec_digits(n / 10);
        assert forall|i: int| 0 <= i < dec(n).len() implies '0' <= #[trigger] dec(n)[i] <= '9' by {
            if i < dec(n / 10).len() {
                assert(dec(n)[i] == dec(n / 10)[i]);
            }
        }
    }
}

proof fn lemma_padded_free(n: nat, width: nat, c: char)
    requires
        c == '|' || c == '\n',
    ensures
        free_of(padded(n, width), c),
{
    lemma_dec_digits(n);
    let d = dec(n);
    if d.len() < width {
        let sp = spaces((width - d.len()) as nat);
        assert forall|i: int| 0 <= i < (sp + d).len() implies (sp + d)[i] != c by {
            if i >= sp.len() {
                assert((sp + d)[i] == d[i - sp.len()]);
            }
        }
    }
}

proof fn lemma_line_parts(p: Seq<char>, body: Seq<char>)
    requires
        free_of(p, '|'),
        free_of(body, '|'),
    ensures
        split(p + seq!['|'] + body, '|') == seq![p, body],
{
    let parts = seq![p, body];
    lemma_join_two(p, body, '|');
    lemma_split_join(parts, '|');
}

proof fn lemma_join_two(a: Seq<char>, b: Seq<char>, sep: char)
    ensures
        join(seq![a, b], sep) == a + seq![sep] + b,
{
    let parts = seq![a, b];
    assert(parts.drop_last() =~= seq![a]);
    assert(join(seq![a], sep) == seq![a][0]);
    assert(parts.last() == b);
}

/// The address column of the pretty listing.
fn padded_text(n: usize, width: usize) -> (r: String)
    requires
        n < u64::MAX,
    ensures
        r@ == padded(n as nat, width as nat),
{
    let d = decimal_text(n as u64);
    let len = d.as_str().unicode_len();
    let mut r = String::new();
    let mut k: usize = len;
    proof {
        assert(r@ =~= spaces(0));
    }
    while k < width
        invariant
            len <= k,
            len == dec(n as nat).len(),
            k <= width || k == len,
            r@ == spaces((k - len) as nat),
        decreases width - k,
    {
        proof {
            reveal_strlit(" ");
        }
        r.append(" ");
        k = k + 1;
        proof {
            assert(r@ =~= spaces((k - len) as nat));
        }
    }
    r.append(d.as_str());
    proof {
        if len >= width {
            assert(k == len);
            assert(r@ =~= dec(n as nat));
        }
    }
    r
}

/// The program that a pretty listing spells: one line per instruction,
/// `address|instruction;`, addresses 1, 2, ... in order, right-aligned to
/// the width of the instruction count. Whatever comes back has exactly this
/// listing, and reading back the listing of a program whose operands read
/// back as themselves and hold no line break gives the program.
pub fn parse_pretty(t: &String) -> (r: Option<Vec<BoatIns>>)
    ensures
        r is Some ==> pretty_text(r->0@, dec(r->0@.len()).len()) == t@,
        forall|q: Seq<BoatIns>|
            plain_code(code_view(q)) && single_line_code(code_view(q)) && q.len() < u64::MAX && pretty_text(
                q,
                dec(q.len()).len(),
            ) == t@ ==> r is Some && code_view(r->0@) == code_view(q),
{
    if t.as_str().unicode_len() == 0 {
        let out: Vec<BoatIns> = Vec::new();
        proof {
            assert forall|q: Seq<BoatIns>|
                plain_code(code_view(q)) && single_line_code(code_view(q)) && pretty_text(q, dec(q.len()).len())
                    == t@ implies code_view(out@) == code_view(q) by {
                if q.len() > 0 {
                    lemma_listing_lines(q, dec(q.len()).len());
                    let w = dec(q.len()).len();
                    let last = q.last();
                    assert(pretty_text(q, w).len() > 0) by {
                        if q.len() == 1 {
                            assert(pretty_text(q, w) == padded(1, w) + seq!['|'] + ins_text(q[0]) + seq![';']);
                        }
                    }
                }
                assert(code_view(out@) =~= code_view(q));
            }
            assert(pretty_text(out@, dec(0).len()) == t@);
        }
        return Some(out);
    }
    let lines = split_text(t.as_str(), '\n');
    let n = lines.len();
    proof {
        lemma_split_len(t@, '\n');
        assert forall|q: Seq<BoatIns>|
            plain_code(code_view(q)) && single_line_code(code_view(q)) && pretty_text(q, dec(q.len()).len())
                == t@ implies tokens_view(lines@) == listing_lines(q, dec(q.len()).len()) by {
            let w = dec(q.len()).len();
            lemma_listing_lines(q, w);
            assert(q.len() >= 1);
            let l = listing_lines(q, w);
            assert forall|i: int| 0 <= i < l.len() implies free_of(#[trigger] l[i], '\n') by {
                lemma_padded_free((i + 1) as nat, w, '\n');
                assert(code_view(q)[i] == q[i]@);
                let ts = ins_tokens(q[i]@);
                assert forall|j: int| 0 <= j < ts.len() implies free_of(#[trigger] ts[j], '\n') by {
                    if j > 0 {
                        assert(ts[j] == argv_text(q[i]@.args[j - 1]));
                        assert(free_of(argv_text(code_view(q)[i].args[j - 1]), '\n'));
                    } else {
                        lemma_cmd_text_free(q[i].cmd);
                        assert(free_of(cmd_text(q[i].cmd), '\n'));
                    }
                }
                lemma_join_free(ts, ' ', '\n');
                lemma_ins_tokens(q[i]);
                let line = padded((i + 1) as nat, w) + seq!['|'] + (ins_text(q[i]) + seq![';']);
                assert forall|x: int| 0 <= x < line.len() implies line[x] != '\n' by {
                    let pl = padded((i + 1) as nat, w).len();
                    if x < pl {
                    } else if x == pl {
                    } else if x < pl + 1 + ins_text(q[i]).len() {
                        assert(line[x] == ins_text(q[i])[x - pl - 1]);
                    }
                }
            }
            lemma_split_join(l, '\n');
        }
    }
    if n as u128 >= u64::MAX as u128 {
        proof {
            assert forall|q: Seq<BoatIns>|
                plain_code(code_view(q)) && single_line_code(code_view(q)) && q.len() < u64::MAX && pretty_text(
                    q,
                    dec(q.len()).len(),
                ) == t@ implies false by {
                lemma_listing_lines(q, dec(q.len()).len());
                assert(tokens_view(lines@).len() == n);
            }
        }
        return None;
    }
    let width = decimal_text(n as u64).as_str().unicode_len();
    let mut out: Vec<BoatIns> = Vec::new();
    let mut k: usize = 0;
    proof {
        assert forall|q: Seq<BoatIns>|
            plain_code(code_view(q)) && single_line_code(code_view(q)) && pretty_text(q, dec(q.len()).len())
                == t@ implies q.len() == n && code_view(out@) == code_view(q).subrange(0, 0) by {
            lemma_listing_lines(q, dec(q.len()).len());
            assert(code_view(out@) =~= code_view(q).subrange(0, 0));
        }
    }
    while k < n
        invariant
            n == lines@.len(),
            n >= 1,
            n < u64::MAX,
            width == dec(n as nat).len(),
            k <= n,
            out@.len() == k,
            tokens_view(lines@) == split(t@, '\n'),
            forall|j: int| 0 <= j < k ==> lines@[j]@ == padded((j + 1) as nat, width as nat) + seq!['|'] + (ins_text(
                #[trigger] out@[j],
            ) + seq![';']),
            forall|q: Seq<BoatIns>|
                plain_code(code_view(q)) && single_line_code(code_view(q)) && pretty_text(q, dec(q.len()).len())
                    == t@ ==> tokens_view(lines@) == listing_lines(q, dec(q.len()).len()) && q.len() == n
                    && code_view(out@) == code_view(q).subrange(0, k as int),
        decreases n - k,
    {
        let line = &lines[k];
        let parts = split_text(line.as_str(), '|');
        proof {
            assert forall|q: Seq<BoatIns>|
                plain_code(code_view(q)) && single_line_code(code_view(q)) && pretty_text(q, dec(q.len()).len())
                    == t@ implies tokens_view(parts@) == seq![padded((k + 1) as nat, width as nat), ins_text(q[k as int]) + seq![';']] by {
                lemma_listing_lines(q, width as nat);
                assert(line@ == listing_lines(q, width as nat)[k as int]);
                lemma_padded_free((k + 1) as nat, width as nat, '|');
                assert(code_view(q)[k as int] == q[k as int]@);
                assert(plain_ins(q[k as int]@)) by {
                    assert forall|j: int| 0 <= j < q[k as int]@.args.len() implies plain_arg(#[trigger] q[k as int]@.args[j]) by {
                        assert(plain_arg(code_view(q)[k as int].args[j]));
                    }
                }
                lemma_plain_ins(q[k as int]);
                let body = ins_text(q[k as int]) + seq![';'];
                assert(free_of(body, '|')) by {
                    assert forall|x: int| 0 <= x < body.len() implies body[x] != '|' by {
                        if x < ins_text(q[k as int]).len() {
                            assert(body[x] == ins_text(q[k as int])[x]);
                        }
                    }
                }
                lemma_line_parts(padded((k + 1) as nat, width as nat), body);
            }
        }
        if parts.len() != 2 {
            proof {
                assert forall|q: Seq<BoatIns>|
                    plain_code(code_view(q)) && single_line_code(code_view(q)) && pretty_text(q, dec(q.len()).len())
                        == t@ implies false by {
                    assert(tokens_view(parts@).len() == 2);
                }
            }
            return None;
        }
        let expected = padded_text(k + 1, width);
        if parts[0] != expected {
            proof {
                assert forall|q: Seq<BoatIns>|
                    plain_code(code_view(q)) && single_line_code(code_view(q)) && pretty_text(q, dec(q.len()).len())
                        == t@ implies false by {
                    assert(tokens_view(parts@)[0] == padded((k + 1) as nat, width as nat));
                }
            }
            return None;
        }
        let body = match strip_terminator(&parts[1]) {
            None => {
                proof {
                    assert forall|q: Seq<BoatIns>|
                        plain_code(code_view(q)) && single_line_code(code_view(q)) && pretty_text(q, dec(q.len()).len())
                            == t@ implies false by {
                        assert(parts@[1]@ == ins_text(q[k as int]) + seq![';']);
                        assert((ins_text(q[k as int]) + seq![';']).last() == ';');
                    }
                }
                return None;
            },
            Some(b) => b,
        };
        proof {
            assert forall|q: Seq<BoatIns>|
                plain_code(code_view(q)) && single_line_code(code_view(q)) && pretty_text(q, dec(q.len()).len())
                    == t@ implies body@ == ins_text(q[k as int]) && plain_ins(q[k as int]@) && join(
                    ins_tokens(q[k as int]@),
                    ' ',
                ) == body@ by {
                assert(parts@[1]@ == ins_text(q[k as int]) + seq![';']);
                assert((ins_text(q[k as int]) + seq![';']).drop_last() =~= ins_text(q[k as int]));
                assert(body@ =~= parts@[1]@.drop_last());
                assert(code_view(q)[k as int] == q[k as int]@);
                assert(plain_ins(q[k as int]@)) by {
                    assert forall|j: int| 0 <= j < q[k as int]@.args.len() implies plain_arg(#[trigger] q[k as int]@.args[j]) by {
                        assert(plain_arg(code_view(q)[k as int].args[j]));
                    }
                }
                lemma_ins_tokens(q[k as int]);
            }
        }
        let ins = match decode_ins(&body) {
            None => {
                return None;
            },
            Some(i) => i,
        };
        let ghost before = out@;
        out.push(ins);
        proof {
            lemma_join_split(line@, '|');
            assert(tokens_view(parts@) =~= seq![parts@[0]@, parts@[1]@]);
            lemma_join_two(parts@[0]@, parts@[1]@, '|');
            assert(line@ =~= padded((k + 1) as nat, width as nat) + seq!['|'] + (ins_text(ins) + seq![';']));
            assert forall|j: int| 0 <= j < k + 1 implies lines@[j]@ == padded((j + 1) as nat, width as nat) + seq!['|']
                + (ins_text(#[trigger] out@[j]) + seq![';']) by {
                if j < k {
                    assert(out@[j] == before[j]);
                } else {
                    assert(out@[j] == ins);
                }
            }
            assert forall|q: Seq<BoatIns>|
                plain_code(code_view(q)) && single_line_code(code_view(q)) && pretty_text(q, dec(q.len()).len())
                    == t@ implies code_view(out@) == code_view(q).subrange(0, k + 1) by {
                assert(code_view(q)[k as int] == q[k as int]@);
                assert(code_view(out@) =~= code_view(before).push(ins@));
                assert(code_view(q).subrange(0, k + 1) =~= code_view(q).subrange(0, k as int).push(code_view(q)[k as int]));
            }
        }
        k = k + 1;
    }
    proof {
        assert forall|q: Seq<BoatIns>|
            plain_code(code_view(q)) && single_line_code(code_view(q)) && pretty_text(q, dec(q.len()).len())
                == t@ implies code_view(out@) == code_view(q) by {
            assert(code_view(q).subrange(0, n as int) =~= code_view(q));
        }
        lemma_listing_lines(out@, width as nat);
        assert forall|i: int| 0 <= i < n implies listing_lines(out@, width as nat)[i] == tokens_view(lines@)[i] by {
            assert(lines@[i]@ == padded((i + 1) as nat, width as nat) + seq!['|'] + (ins_text(out@[i]) + seq![';']));
        }
        assert(listing_lines(out@, width as nat) =~= tokens_view(lines@));
        lemma_join_split(t@, '\n');
    }
    Some(out)
}

} // verus!
