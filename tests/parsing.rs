use mini_asm::instruction::Instruction;
use mini_asm::lexer::lex;
use mini_asm::parser::{parse_instruction, ParseError};
use mini_asm::program::parse_file;

fn s(t: &str) -> String {
    t.to_string()
}

fn toks(line: &str) -> Vec<String> {
    line.split_whitespace().map(|t| t.to_string()).collect()
}

#[test]
fn lexer_cuts_comments_and_keeps_blank_lines() {
    let out = lex("MOV 1 2 ; set\n\n  ; only a comment\n\tADD\ta  b\nHALT;x");
    assert_eq!(
        out,
        vec![
            vec![s("MOV"), s("1"), s("2")],
            vec![],
            vec![],
            vec![s("ADD"), s("a"), s("b")],
            vec![s("HALT")],
        ]
    );
}

#[test]
fn lexer_line_count_follows_lines() {
    assert_eq!(lex("").len(), 0);
    assert_eq!(lex("\n").len(), 1);
    assert_eq!(lex("A\n").len(), 1);
    assert_eq!(lex("A\nB").len(), 2);
    assert_eq!(lex("A\r\nB\r\n"), vec![vec![s("A")], vec![s("B")]]);
}

#[test]
fn default_program_decodes_in_order() {
    let p = parse_file(s("MOV 1, 5\nMOV 2, 3\nADD 0, 1\nSUB 1, 2\nMUL 1, 2")).unwrap();
    assert_eq!(
        p.instructions,
        vec![
            Instruction::MOV(0, 5),
            Instruction::MOV(0, 3),
            Instruction::ADD(0, 1),
            Instruction::SUB(0, 2),
            Instruction::MUL(0, 2),
            Instruction::HALT,
        ]
    );
    assert!(p.functions.is_empty());
}

#[test]
fn unknown_opcode_names_token_and_line() {
    assert_eq!(
        parse_file(s("FOO 1,2")).unwrap_err(),
        ParseError::UnknownOpcode { token: s("FOO"), line: 0 }
    );
    assert_eq!(
        parse_file(s("MOV 1 2\n\nFOO 1,2\nBAR")).unwrap_err(),
        ParseError::UnknownOpcode { token: s("FOO"), line: 2 }
    );
}

#[test]
fn function_block_is_collected_by_name() {
    let p = parse_file(s(".myfunc\nADD 0,1\n.end")).unwrap();
    assert_eq!(p.instructions, vec![Instruction::HALT]);
    assert_eq!(p.functions, vec![(s(".myfunc"), vec![Instruction::ADD(0, 0)])]);
    assert_eq!(p.function(".myfunc"), Some(&vec![Instruction::ADD(0, 0)]));
    assert_eq!(p.function("myfunc"), None);
}

#[test]
fn global_and_block_lines_are_kept_apart() {
    let p = parse_file(s("INC a\n.f\nDEC b\nPRINT b\n.end extra\nPRINT a")).unwrap();
    assert_eq!(p.instructions, vec![Instruction::INC(0), Instruction::PRINT(0), Instruction::HALT]);
    assert_eq!(p.functions, vec![(s(".f"), vec![Instruction::DEC(1), Instruction::PRINT(1)])]);
}

#[test]
fn redefined_block_replaces_the_earlier_one() {
    let p = parse_file(s(".f\nINC 1\n.end\n.g\n.end\n.f\nDEC 2\n.end")).unwrap();
    assert_eq!(
        p.functions,
        vec![(s(".f"), vec![Instruction::DEC(2)]), (s(".g"), vec![])]
    );
}

#[test]
fn unterminated_block_is_fatal() {
    assert_eq!(
        parse_file(s(".myfunc\nADD 0,1")).unwrap_err(),
        ParseError::UnterminatedBlock { name: s(".myfunc") }
    );
}

#[test]
fn end_without_block_is_fatal() {
    assert_eq!(
        parse_file(s("INC 1\n.end")).unwrap_err(),
        ParseError::EndWithoutBlock { line: 1 }
    );
}

#[test]
fn nested_block_is_fatal() {
    assert_eq!(
        parse_file(s(".a\n.b\n.end")).unwrap_err(),
        ParseError::NestedBlock { line: 1 }
    );
}

#[test]
fn malformed_binary_operand_is_fatal() {
    assert_eq!(
        parse_file(s("ADD 1 2\nADD b1x 2")).unwrap_err(),
        ParseError::BadBinary { token: s("b1x"), line: 1 }
    );
    assert_eq!(
        parse_file(s("FOO 1 b12")).unwrap_err(),
        ParseError::BadBinary { token: s("b12"), line: 0 }
    );
}

#[test]
fn empty_text_is_just_halt() {
    let p = parse_file(s("")).unwrap();
    assert_eq!(p.instructions, vec![Instruction::HALT]);
    let p = parse_file(s("; nothing\n\n")).unwrap();
    assert_eq!(p.instructions, vec![Instruction::HALT]);
}

#[test]
fn opcodes_match_without_case() {
    assert_eq!(parse_instruction(&toks("add 1 2"), 0), Ok(Instruction::ADD(1, 2)));
    assert_eq!(parse_instruction(&toks("SwAp c d"), 0), Ok(Instruction::SWAP(2, 3)));
    assert_eq!(parse_instruction(&toks("halt"), 0), Ok(Instruction::HALT));
    assert_eq!(
        parse_instruction(&toks("ADDX 1 2"), 4),
        Err(ParseError::UnknownOpcode { token: s("ADDX"), line: 4 })
    );
}

#[test]
fn every_opcode_decodes() {
    assert_eq!(parse_instruction(&toks("SUB 1 2"), 0), Ok(Instruction::SUB(1, 2)));
    assert_eq!(parse_instruction(&toks("MUL 1 2"), 0), Ok(Instruction::MUL(1, 2)));
    assert_eq!(parse_instruction(&toks("DIV 1 2"), 0), Ok(Instruction::DIV(1, 2)));
    assert_eq!(parse_instruction(&toks("CLR 3"), 0), Ok(Instruction::CLR(3)));
    assert_eq!(parse_instruction(&toks("DEC 3"), 0), Ok(Instruction::DEC(3)));
    assert_eq!(parse_instruction(&toks("INC 3"), 0), Ok(Instruction::INC(3)));
    assert_eq!(parse_instruction(&toks("CMP 1 2"), 0), Ok(Instruction::CMP(1, 2)));
    assert_eq!(parse_instruction(&toks("PRINT 3"), 0), Ok(Instruction::PRINT(3)));
    assert_eq!(parse_instruction(&toks("POW 1 3"), 0), Ok(Instruction::POW(1, 3)));
    assert_eq!(parse_instruction(&toks("MOVR 1 c"), 0), Ok(Instruction::MOVR(1, 2)));
    assert_eq!(parse_instruction(&toks("JMP 7"), 0), Ok(Instruction::JMP(7)));
}

#[test]
fn mov_source_is_literal_or_register() {
    assert_eq!(parse_instruction(&toks("MOV 1 5"), 0), Ok(Instruction::MOV(1, 5)));
    assert_eq!(parse_instruction(&toks("MOV 1 c"), 0), Ok(Instruction::MOVR(1, 2)));
    assert_eq!(parse_instruction(&toks("MOV 1 C"), 0), Ok(Instruction::MOVR(1, 2)));
    assert_eq!(parse_instruction(&toks("MOV 1 b0101"), 0), Ok(Instruction::MOVR(1, 1)));
    assert_eq!(parse_instruction(&toks("MOV 1 #"), 0), Ok(Instruction::MOVR(1, 0)));
    assert_eq!(parse_instruction(&toks("MOV 1"), 0), Ok(Instruction::MOV(1, 0)));
    assert_eq!(parse_instruction(&toks("MOV b 70000"), 0), Ok(Instruction::MOVR(1, 0)));
}

#[test]
fn opcodes_match_as_std_upper_cases_them() {
    assert_eq!(parse_instruction(&toks("\u{17f}ub 1 2"), 0), Ok(Instruction::SUB(1, 2)));
    assert_eq!(parse_instruction(&toks("\u{17f}UB 1 2"), 0), Ok(Instruction::SUB(1, 2)));
    assert_eq!(parse_instruction(&toks("\u{17f}wap 1 2"), 0), Ok(Instruction::SWAP(1, 2)));
    assert_eq!(parse_instruction(&toks("d\u{131}v 1 2"), 0), Ok(Instruction::DIV(1, 2)));
    assert_eq!(parse_instruction(&toks("\u{131}nc 1"), 0), Ok(Instruction::INC(1)));
    assert_eq!(parse_instruction(&toks("pr\u{131}nt 1"), 0), Ok(Instruction::PRINT(1)));
    for t in ["\u{17f}ub", "d\u{131}v", "\u{131}nc", "pr\u{131}nt", "\u{17f}wap"] {
        assert!(["SUB", "DIV", "INC", "PRINT", "SWAP"].contains(&t.to_uppercase().as_str()));
    }
    assert_eq!(
        parse_instruction(&toks("\u{df}UB 1 2"), 0),
        Err(ParseError::UnknownOpcode { token: s("\u{df}UB"), line: 0 })
    );
    assert_eq!(
        parse_instruction(&toks("\u{130}NC 1"), 0),
        Err(ParseError::UnknownOpcode { token: s("\u{130}NC"), line: 0 })
    );
}

#[test]
fn first_faulty_line_is_reported() {
    assert_eq!(
        parse_file(s("\u{17f}ub 1 2\nFOO 1 2\nBAR")).unwrap_err(),
        ParseError::UnknownOpcode { token: s("FOO"), line: 1 }
    );
}

#[test]
fn block_without_end_fails_even_after_global_lines() {
    assert_eq!(
        parse_file(s("MOV 1 5\n.f\nADD 1 2")).unwrap_err(),
        ParseError::UnterminatedBlock { name: s(".f") }
    );
    assert_eq!(
        parse_file(s("MOV 1 5\n.f\nADD 1 2\n.g")).unwrap_err(),
        ParseError::NestedBlock { line: 3 }
    );
}
