use mini_asm::encode::{decimal_text, encode, encode_program};
use mini_asm::instruction::Instruction;
use mini_asm::lexer::lex;
use mini_asm::parser::parse_instruction;
use mini_asm::program::parse_file;
use mini_asm::source::encode_source;

fn all_kinds() -> Vec<Instruction> {
    vec![
        Instruction::ADD(1, 2),
        Instruction::SUB(0, 65535),
        Instruction::MUL(25, 3),
        Instruction::DIV(4, 10),
        Instruction::MOV(7, 12345),
        Instruction::MOVR(2, 30),
        Instruction::SWAP(0, 1),
        Instruction::CLR(9),
        Instruction::DEC(10),
        Instruction::INC(100),
        Instruction::CMP(3, 4),
        Instruction::POW(1, 65535),
        Instruction::PRINT(0),
        Instruction::JMP(42),
        Instruction::HALT,
    ]
}

#[test]
fn decimal_text_has_no_leading_zeros() {
    assert_eq!(decimal_text(0), "0");
    assert_eq!(decimal_text(7), "7");
    assert_eq!(decimal_text(10), "10");
    assert_eq!(decimal_text(65535), "65535");
    assert_eq!(decimal_text(4_000_000_000), "4000000000");
}

#[test]
fn encode_writes_opcode_and_operands() {
    assert_eq!(encode(Instruction::ADD(1, 2)), "ADD 1 2");
    assert_eq!(encode(Instruction::MOVR(3, 0)), "MOVR 3 0");
    assert_eq!(encode(Instruction::PRINT(5)), "PRINT 5");
    assert_eq!(encode(Instruction::HALT), "HALT");
    assert_eq!(encode(Instruction::POW(2, 70000)), "POW 2 70000");
}

#[test]
fn decode_after_encode_gives_the_instruction_back() {
    for ins in all_kinds() {
        let line = encode(ins);
        let toks = lex(&line);
        assert_eq!(toks.len(), 1);
        assert_eq!(parse_instruction(&toks[0], 3), Ok(ins));
    }
}

#[test]
fn encoded_program_parses_to_the_same_list() {
    let list = all_kinds();
    let text = encode_program(&list);
    assert!(text.starts_with("ADD 1 2\nSUB 0 65535\n"));
    assert!(text.ends_with("\nJMP 42\nHALT"));
    let p = parse_file(text).unwrap();
    let mut expected = list.clone();
    expected.push(Instruction::HALT);
    assert_eq!(p.instructions, expected);
}

#[test]
fn empty_list_encodes_to_empty_text() {
    assert_eq!(encode_program(&vec![]), "");
    assert_eq!(parse_file(encode_program(&vec![])).unwrap().instructions, vec![Instruction::HALT]);
}

#[test]
fn program_with_blocks_round_trips() {
    let text = "MOV a 6\n.f\nINC 1\n\u{17f}ub 2 1\n.end\nPRINT a\n.g\n.end\nPOW 1 b0111";
    let p = parse_file(text.to_string()).unwrap();
    let src = encode_source(&p);
    assert_eq!(src, "MOV 0 6\nPRINT 0\nPOW 1 7\n.f\nINC 1\nSUB 2 1\n.end\n.g\n.end");
    let q = parse_file(src).unwrap();
    assert_eq!(q.instructions, p.instructions);
    assert_eq!(q.functions, p.functions);
}
