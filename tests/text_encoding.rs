use boat_lang_core::bytecode_reader::{decode_arg, decode_ins, parse_annotated, parse_pretty};
use boat_lang_core::boat_instructions::{
    cmd_to_string, decimal_text, translated_to_string, translated_to_string2, BoatArg, BoatCmd, BoatIns,
};

fn ins(cmd: BoatCmd, args: &[BoatArg]) -> BoatIns {
    BoatIns { cmd, args: args.to_vec() }
}

fn c(s: &str) -> BoatArg {
    BoatArg::Const(s.to_string())
}

fn sample() -> Vec<BoatIns> {
    vec![
        ins(BoatCmd::KVSet, &[c("a"), c("0")]),
        ins(BoatCmd::Lt, &[BoatArg::FromKVS("a".to_string()), c("3")]),
        ins(BoatCmd::Cmp, &[BoatArg::FromStack, c("5")]),
        ins(BoatCmd::DisplayClear, &[]),
        ins(BoatCmd::Goto, &[c("2")]),
    ]
}

#[test]
fn compact_encoding() {
    assert_eq!(translated_to_string(sample()), "ka a 0;< $a 3;c $ 5;dc;g 2;");
    assert_eq!(translated_to_string(vec![]), "");
}

#[test]
fn annotated_encoding() {
    assert_eq!(translated_to_string2(sample(), false), "|1|ka a 0;|2|< $a 3;|3|c $ 5;|4|dc;|5|g 2;");
}

#[test]
fn pretty_listing_aligns_addresses() {
    let mut code = Vec::new();
    for _ in 0..10 {
        code.push(ins(BoatCmd::Push, &[c("1")]));
    }
    let text = translated_to_string2(code, true);
    let lines: Vec<&str> = text.split('\n').collect();
    assert_eq!(lines.len(), 10);
    assert_eq!(lines[0], " 1|p 1;");
    assert_eq!(lines[9], "10|p 1;");
}

#[test]
fn mnemonics() {
    let all = [
        (BoatCmd::Push, "p"),
        (BoatCmd::Goto, "g"),
        (BoatCmd::Input, "i"),
        (BoatCmd::Output, "o"),
        (BoatCmd::Add, "+"),
        (BoatCmd::Sub, "-"),
        (BoatCmd::Mul, "*"),
        (BoatCmd::Div, "/"),
        (BoatCmd::Conc, ".."),
        (BoatCmd::KVReSet, "kr"),
        (BoatCmd::KVSet, "ka"),
        (BoatCmd::KVDel, "kd"),
        (BoatCmd::Cmp, "c"),
        (BoatCmd::Lt, "<"),
        (BoatCmd::Eq, "="),
        (BoatCmd::Gt, ">"),
        (BoatCmd::Sleep, "s"),
        (BoatCmd::Display, "di"),
        (BoatCmd::DisplayClear, "dc"),
    ];
    for (cmd, text) in all {
        assert_eq!(cmd_to_string(cmd), text);
    }
}

#[test]
fn decimal_texts() {
    assert_eq!(decimal_text(0), "0");
    assert_eq!(decimal_text(7), "7");
    assert_eq!(decimal_text(1090), "1090");
    assert_eq!(decimal_text(u64::MAX), "18446744073709551615");
}

#[test]
fn annotated_text_reads_back() {
    let code = sample();
    let text = translated_to_string2(code.clone(), false);
    assert_eq!(parse_annotated(&text), Some(code));
    assert_eq!(parse_annotated(&String::new()), Some(vec![]));
}

#[test]
fn malformed_annotated_text_is_refused() {
    assert_eq!(parse_annotated(&"|1|p 1;".to_string()), Some(vec![ins(BoatCmd::Push, &[c("1")])]));
    assert_eq!(parse_annotated(&"|1|p 1".to_string()), None);
    assert_eq!(parse_annotated(&"|2|p 1;".to_string()), None);
    assert_eq!(parse_annotated(&"|1|zz 1".to_string()), None);
    assert_eq!(parse_annotated(&"x|1|p 1".to_string()), None);
    assert_eq!(parse_annotated(&"|1|p 1|2".to_string()), None);
}

#[test]
fn operand_tokens_decode() {
    assert_eq!(decode_arg(&"$".to_string()), Some(BoatArg::FromStack));
    assert_eq!(decode_arg(&"$ab".to_string()), Some(BoatArg::FromKVS("ab".to_string())));
    assert_eq!(decode_arg(&"12".to_string()), Some(c("12")));
    assert_eq!(decode_arg(&String::new()), None);
    assert_eq!(decode_ins(&"o 1 $x".to_string()), Some(ins(BoatCmd::Output, &[c("1"), BoatArg::FromKVS("x".to_string())])));
}

#[test]
fn pretty_listing_reads_back() {
    let code = sample();
    let text = translated_to_string2(code.clone(), true);
    assert_eq!(text, "1|ka a 0;\n2|< $a 3;\n3|c $ 5;\n4|dc;\n5|g 2;");
    assert_eq!(parse_pretty(&text), Some(code));
    let mut long = Vec::new();
    for i in 0..12 {
        long.push(ins(BoatCmd::Push, &[c(&i.to_string())]));
    }
    let text = translated_to_string2(long.clone(), true);
    assert_eq!(parse_pretty(&text), Some(long));
    assert_eq!(parse_pretty(&String::new()), Some(vec![]));
}

#[test]
fn malformed_pretty_listing_is_refused() {
    assert_eq!(parse_pretty(&"1|p 1".to_string()), None);
    assert_eq!(parse_pretty(&"2|p 1;".to_string()), None);
    assert_eq!(parse_pretty(&"1|p 1;\n2|g 1".to_string()), None);
    assert_eq!(parse_pretty(&"1|p 1;\n 2|p 2;".to_string()), None);
}
