use vstd::prelude::*;

use crate::helpers::is_white;
use crate::instruction::Instruction;
use crate::lexer::{comment_pos, lemma_comment_pos, lex_spec, line_tokens, lines, split_nl, words};
use crate::program::{assemble, assemble_prefix, is_directive, parse_spec, AsmState, ProgramModel};
use crate::number::{all_digits, decimal_u16, digit_val, digits_value};
use crate::parser::{ci_eq, decode, lemma_zero_token, resolve, Fault};

verus! {

/// The ten decimal digits in order.
pub open spec fn digit_chars() -> Seq<char> {
    seq!['0', '1', '2', '3', '4', '5', '6', '7', '8', '9']
}

/// Decimal text of `n`, without leading zeros.
pub open spec fn dec_text(n: nat) -> Seq<char>
    decreases n,
{
    if n < 10 {
        seq![digit_chars()[n as int]]
    } else {
        dec_text(n / 10).push(digit_chars()[(n % 10) as int])
    }
}

/// Words joined by single spaces.
pub open spec fn join(ws: Seq<Seq<char>>) -> Seq<char>
    decreases ws.len(),
{
    if ws.len() == 0 {
        seq![]
    } else if ws.len() == 1 {
        ws[0]
    } else {
        join(ws.drop_last()) + seq![' '] + ws.last()
    }
}

/// The tokens that stand for an instruction: its opcode, then its operands in decimal.
pub open spec fn encode_tokens(ins: Instruction) -> Seq<Seq<char>> {
    match ins {
        Instruction::ADD(d, s) => seq!["ADD"@, dec_text(d as nat), dec_text(s as nat)],
        Instruction::SUB(d, s) => seq!["SUB"@, dec_text(d as nat), dec_text(s as nat)],
        Instruction::MUL(d, s) => seq!["MUL"@, dec_text(d as nat), dec_text(s as nat)],
        Instruction::DIV(d, s) => seq!["DIV"@, dec_text(d as nat), dec_text(s as nat)],
        Instruction::MOV(d, v) => seq!["MOV"@, dec_text(d as nat), dec_text(v as nat)],
        Instruction::MOVR(d, s) => seq!["MOVR"@, dec_text(d as nat), dec_text(s as nat)],
        Instruction::SWAP(a, b) => seq!["SWAP"@, dec_text(a as nat), dec_text(b as nat)],
        Instruction::CLR(d) => seq!["CLR"@, dec_text(d as nat)],
        Instruction::DEC(d) => seq!["DEC"@, dec_text(d as nat)],
        Instruction::INC(d) => seq!["INC"@, dec_text(d as nat)],
        Instruction::CMP(a, b) => seq!["CMP"@, dec_text(a as nat), dec_text(b as nat)],
        Instruction::POW(d, e) => seq!["POW"@, dec_text(d as nat), dec_text(e as nat)],
        Instruction::PRINT(d) => seq!["PRINT"@, dec_text(d as nat)],
        Instruction::JMP(t) => seq!["JMP"@, dec_text(t as nat)],
        Instruction::HALT => seq!["HALT"@],
    }
}

/// Source line of an instruction.
pub open spec fn encode_spec(ins: Instruction) -> Seq<char> {
    join(encode_tokens(ins))
}

/// The instruction has a source form: a `POW` exponent must fit in 16 bits,
/// as every operand token resolves to a 16-bit value.
pub open spec fn encodable(ins: Instruction) -> bool {
    match ins {
        Instruction::POW(_, e) => e <= 0xffff,
        _ => true,
    }
}

/// A word: not empty, and no white space or `;` in it.
pub open spec fn plain_word(w: Seq<char>) -> bool {
    w.len() > 0 && forall|i: int| 0 <= i < w.len() ==> !is_white(#[trigger] w[i]) && w[i] != ';'
}

proof fn lemma_dec_text(n: nat)
    ensures
        plain_word(dec_text(n)),
        all_digits(dec_text(n), 10),
        digits_value(dec_text(n), 10) == n,
    decreases n,
{
    let t = dec_text(n);
    if n < 10 {
        assert(seq![digit_chars()[n as int]].drop_last() =~= Seq::<char>::empty());
        assert(digit_val(digit_chars()[n as int]) == n as int);
        assert(digits_value(Seq::<char>::empty(), 10) == 0);
        assert(t.last() == digit_chars()[n as int]);
    } else {
        lemma_dec_text(n / 10);
        let p = dec_text(n / 10);
        let c = digit_chars()[(n % 10) as int];
        assert(t.drop_last() =~= p);
        assert(digit_val(c) == (n % 10) as int);
        assert(t.last() == c);
        assert(n == (n / 10) * 10 + n % 10);
        assert(digits_value(t, 10) == digits_value(p, 10) * 10 + digit_val(c));
        assert forall|i: int| 0 <= i < t.len() implies 0 <= #[trigger] digit_val(t[i]) < 10 by {
            if i < p.len() {
                assert(t[i] == p[i]);
            }
        }
        assert forall|i: int| 0 <= i < t.len() implies !is_white(#[trigger] t[i]) && t[i] != ';' by {
            if i < p.len() {
                assert(t[i] == p[i]);
            }
        }
    }
}

/// A decimal text resolves to its number.
proof fn lemma_dec_text_resolves(n: u16)
    ensures
        resolve(dec_text(n as nat)) == Some(n),
        decimal_u16(dec_text(n as nat)) == Some(n),
{
    lemma_dec_text(n as nat);
    let t = dec_text(n as nat);
    assert(0 <= digit_val(t[0]) < 10);
    assert(t.skip(0) =~= t);
}

proof fn lemma_words_append(s: Seq<char>, w: Seq<char>)
    requires
        plain_word(w),
        s.len() == 0 || is_white(s.last()),
    ensures
        words(s + w) == words(s).push(w),
    decreases w.len(),
{
    let x = s + w;
    if w.len() == 1 {
        assert(x.drop_last() =~= s);
        assert(seq![w[0]] =~= w);
        if x.len() >= 2 {
            assert(x[x.len() - 2] == s.last());
        }
    } else {
        let v = w.drop_last();
        assert(plain_word(v)) by {
            assert forall|i: int| 0 <= i < v.len() implies !is_white(#[trigger] v[i]) && v[i] != ';' by {
                assert(v[i] == w[i]);
            }
        }
        lemma_words_append(s, v);
        assert(x.drop_last() =~= s + v);
        assert(x[x.len() - 2] == w[w.len() - 2]);
        assert(v.push(w.last()) =~= w);
        assert(words(s).push(v).update(words(s).len() as int, w) =~= words(s).push(w));
    }
}

pub proof fn lemma_words_join(ws: Seq<Seq<char>>)
    requires
        ws.len() > 0,
        forall|i: int| 0 <= i < ws.len() ==> plain_word(#[trigger] ws[i]),
    ensures
        words(join(ws)) == ws,
        forall|i: int| 0 <= i < join(ws).len() ==> #[trigger] join(ws)[i] != ';',
    decreases ws.len(),
{
    if ws.len() == 1 {
        lemma_words_append(Seq::empty(), ws[0]);
        assert(Seq::<char>::empty() + ws[0] =~= ws[0]);
        assert(words(Seq::<char>::empty()) =~= Seq::<Seq<char>>::empty());
        assert(seq![ws[0]] =~= ws);
        assert(plain_word(ws[0]));
    } else {
        let p = ws.drop_last();
        assert forall|i: int| 0 <= i < p.len() implies plain_word(#[trigger] p[i]) by {
            assert(p[i] == ws[i]);
        }
        lemma_words_join(p);
        let a = join(p) + seq![' '];
        assert(a.drop_last() =~= join(p));
        assert(words(a) == words(join(p)));
        assert(plain_word(ws.last()));
        lemma_words_append(a, ws.last());
        assert(p.push(ws.last()) =~= ws);
        let j = join(ws);
        assert forall|i: int| 0 <= i < j.len() implies #[trigger] j[i] != ';' by {
            if i < join(p).len() {
                assert(j[i] == join(p)[i]);
            } else if i > join(p).len() {
                assert(j[i] == ws.last()[i - join(p).len() - 1]);
            }
        }
    }
}

/// The lexer reads an encoded line back as its tokens.
pub proof fn lemma_encode_lexes(ins: Instruction)
    ensures
        line_tokens(encode_spec(ins)) == encode_tokens(ins),
        forall|k: int| 0 <= k < encode_tokens(ins).len() ==> plain_word(#[trigger] encode_tokens(ins)[k]),
{
    reveal_strlit("ADD");
    reveal_strlit("SUB");
    reveal_strlit("MUL");
    reveal_strlit("DIV");
    reveal_strlit("MOV");
    reveal_strlit("MOVR");
    reveal_strlit("SWAP");
    reveal_strlit("CLR");
    reveal_strlit("DEC");
    reveal_strlit("INC");
    reveal_strlit("CMP");
    reveal_strlit("POW");
    reveal_strlit("PRINT");
    reveal_strlit("JMP");
    reveal_strlit("HALT");
    let ws = encode_tokens(ins);
    let args: Seq<nat> = match ins {
        Instruction::ADD(d, s) => seq![d as nat, s as nat],
        Instruction::SUB(d, s) => seq![d as nat, s as nat],
        Instruction::MUL(d, s) => seq![d as nat, s as nat],
        Instruction::DIV(d, s) => seq![d as nat, s as nat],
        Instruction::MOV(d, s) => seq![d as nat, s as nat],
        Instruction::MOVR(d, s) => seq![d as nat, s as nat],
        Instruction::SWAP(d, s) => seq![d as nat, s as nat],
        Instruction::CLR(d) => seq![d as nat],
        Instruction::DEC(d) => seq![d as nat],
        Instruction::INC(d) => seq![d as nat],
        Instruction::CMP(d, s) => seq![d as nat, s as nat],
        Instruction::POW(d, s) => seq![d as nat, s as nat],
        Instruction::PRINT(d) => seq![d as nat],
        Instruction::JMP(d) => seq![d as nat],
        Instruction::HALT => seq![],
    };
    assert(ws.len() == args.len() + 1);
    assert forall|i: int| 1 <= i < ws.len() implies ws[i] == dec_text(#[trigger] args[i - 1]) by {
    }
    assert forall|i: int| 0 <= i < ws.len() implies plain_word(#[trigger] ws[i]) by {
        if i > 0 {
            lemma_dec_text(args[i - 1]);
        } else {
            assert(plain_word(ws[0]));
        }
    }
    lemma_words_join(ws);
    let t = encode_spec(ins);
    lemma_comment_pos(t, t.len() as int);
    assert(t.take(t.len() as int) =~= t);
}

/// Lines joined by newlines.
pub open spec fn join_lines(ls: Seq<Seq<char>>) -> Seq<char>
    decreases ls.len(),
{
    if ls.len() == 0 {
        seq![]
    } else if ls.len() == 1 {
        ls[0]
    } else {
        join_lines(ls.drop_last()) + seq!['\n'] + ls.last()
    }
}

/// Source text of an instruction list, one line per instruction.
pub open spec fn program_text(list: Seq<Instruction>) -> Seq<char> {
    join_lines(list.map_values(|i: Instruction| encode_spec(i)))
}

/// Text of one decimal digit.
fn digit_text(d: u32) -> (r: String)
    requires
        d < 10,
    ensures
        r@ == seq![digit_chars()[d as int]],
{
    let all = "0123456789";
    proof {
        reveal_strlit("0123456789");
    }
    assert(all@ =~= digit_chars());
    let r = all.substring_char(d as usize, d as usize + 1).to_owned();
    assert(r@ =~= seq![digit_chars()[d as int]]);
    r
}

/// Decimal text of `n`, without leading zeros.
pub fn decimal_text(n: u32) -> (r: String)
    ensures
        r@ == dec_text(n as nat),
    decreases n,
{
    if n < 10 {
        digit_text(n)
    } else {
        let mut r = decimal_text(n / 10);
        let d = digit_text(n % 10);
        r.append(d.as_str());
        assert(r@ =~= dec_text(n as nat));
        r
    }
}

/// The tokens joined by single spaces.
pub(crate) fn join_tokens(ws: &Vec<String>) -> (r: String)
    requires
        ws.len() > 0,
    ensures
        r@ == join(ws.deep_view()),
{
    let ghost v = ws.deep_view();
    let mut r = ws[0].clone();
    proof {
        reveal_strlit(" ");
        assert(v.take(1) =~= seq![v[0]]);
    }
    let mut i: usize = 1;
    while i < ws.len()
        invariant
            v == ws.deep_view(),
            1 <= i <= ws.len(),
            r@ == join(v.take(i as int)),
        decreases ws.len() - i,
    {
        r.append(" ");
        r.append(ws[i].as_str());
        proof {
            reveal_strlit(" ");
            assert(v.take(i + 1).drop_last() =~= v.take(i as int));
            assert(r@ =~= join(v.take(i + 1)));
        }
        i += 1;
    }
    assert(v.take(ws.len() as int) =~= v);
    r
}

/// Source line of an instruction: its opcode, then its operands in decimal,
/// separated by single spaces.
pub fn encode(ins: Instruction) -> (r: String)
    ensures
        r@ == encode_spec(ins),
{
    let ws: Vec<String> = match ins {
        Instruction::ADD(a, b) => vec![String::from_str("ADD"), decimal_text(a as u32), decimal_text(b as u32)],
        Instruction::SUB(a, b) => vec![String::from_str("SUB"), decimal_text(a as u32), decimal_text(b as u32)],
        Instruction::MUL(a, b) => vec![String::from_str("MUL"), decimal_text(a as u32), decimal_text(b as u32)],
        Instruction::DIV(a, b) => vec![String::from_str("DIV"), decimal_text(a as u32), decimal_text(b as u32)],
        Instruction::MOV(a, b) => vec![String::from_str("MOV"), decimal_text(a as u32), decimal_text(b as u32)],
        Instruction::MOVR(a, b) => vec![String::from_str("MOVR"), decimal_text(a as u32), decimal_text(b as u32)],
        Instruction::SWAP(a, b) => vec![String::from_str("SWAP"), decimal_text(a as u32), decimal_text(b as u32)],
        Instruction::CLR(a) => vec![String::from_str("CLR"), decimal_text(a as u32)],
        Instruction::DEC(a) => vec![String::from_str("DEC"), decimal_text(a as u32)],
        Instruction::INC(a) => vec![String::from_str("INC"), decimal_text(a as u32)],
        Instruction::CMP(a, b) => vec![String::from_str("CMP"), decimal_text(a as u32), decimal_text(b as u32)],
        Instruction::POW(a, e) => vec![String::from_str("POW"), decimal_text(a as u32), decimal_text(e)],
        Instruction::PRINT(a) => vec![String::from_str("PRINT"), decimal_text(a as u32)],
        Instruction::JMP(a) => vec![String::from_str("JMP"), decimal_text(a as u32)],
        Instruction::HALT => vec![String::from_str("HALT")],
    };
    assert(ws.deep_view() =~= encode_tokens(ins));
    join_tokens(&ws)
}

/// Source text of an instruction list: the line of each instruction, in
/// order, separated by newlines.
pub fn encode_program(list: &Vec<Instruction>) -> (r: String)
    ensures
        r@ == program_text(list@),
{
    let ghost v = list@.map_values(|i: Instruction| encode_spec(i));
    let mut r = String::new();
    if list.len() == 0 {
        return r;
    }
    r = encode(list[0]);
    proof {
        reveal_strlit("\n");
        assert(v.take(1) =~= seq![v[0]]);
    }
    let mut i: usize = 1;
    while i < list.len()
        invariant
            v == list@.map_values(|i: Instruction| encode_spec(i)),
            1 <= i <= list.len(),
            r@ == join_lines(v.take(i as int)),
        decreases list.len() - i,
    {
        r.append("\n");
        let line = encode(list[i]);
        r.append(line.as_str());
        proof {
            reveal_strlit("\n");
            assert(v.take(i + 1).drop_last() =~= v.take(i as int));
            assert(r@ =~= join_lines(v.take(i + 1)));
        }
        i += 1;
    }
    assert(v.take(list.len() as int) =~= v);
    r
}

/// The lines joined by newlines.
pub(crate) fn join_line_strings(ls: &Vec<String>) -> (r: String)
    ensures
        r@ == join_lines(ls.deep_view()),
{
    let ghost v = ls.deep_view();
    if ls.len() == 0 {
        let r = String::new();
        assert(v =~= Seq::<Seq<char>>::empty());
        return r;
    }
    let mut r = ls[0].clone();
    assert(v.take(1) =~= seq![v[0]]);
    let mut i: usize = 1;
    while i < ls.len()
        invariant
            v == ls.deep_view(),
            1 <= i <= ls.len(),
            r@ == join_lines(v.take(i as int)),
        decreases ls.len() - i,
    {
        r.append("\n");
        r.append(ls[i].as_str());
        proof {
            reveal_strlit("\n");
            assert(v.take(i + 1).drop_last() =~= v.take(i as int));
            assert(r@ =~= join_lines(v.take(i + 1)));
        }
        i += 1;
    }
    assert(v.take(ls.len() as int) =~= v);
    r
}

/// Two words that hold different upper-case letters at one index do not
/// match case-blind.
proof fn lemma_not_ci(t: Seq<char>, w: Seq<char>, i: int)
    requires
        0 <= i < t.len(),
        i < w.len(),
        'A' <= t[i] && t[i] <= 'Z',
        'A' <= w[i] && w[i] <= 'Z',
        t[i] != w[i],
    ensures
        !ci_eq(t, w),
{
}

/// `ADD` matches its own name and none tried before it.
proof fn lemma_opcode_add()
    ensures
        ci_eq("ADD"@, "ADD"@),
{
    reveal_strlit("ADD");
}

/// `SUB` matches its own name and none tried before it.
proof fn lemma_opcode_sub()
    ensures
        ci_eq("SUB"@, "SUB"@),
        !ci_eq("SUB"@, "ADD"@),
{
    reveal_strlit("SUB");
    reveal_strlit("ADD");
    lemma_not_ci("SUB"@, "ADD"@, 0);
}

/// `MUL` matches its own name and none tried before it.
proof fn lemma_opcode_mul()
    ensures
        ci_eq("MUL"@, "MUL"@),
        !ci_eq("MUL"@, "ADD"@),
        !ci_eq("MUL"@, "SUB"@),
{
    reveal_strlit("MUL");
    reveal_strlit("ADD");
    reveal_strlit("SUB");
    lemma_not_ci("MUL"@, "ADD"@, 0);
    lemma_not_ci("MUL"@, "SUB"@, 0);
}

/// `MOV` matches its own name and none tried before it.
proof fn lemma_opcode_mov()
    ensures
        ci_eq("MOV"@, "MOV"@),
        !ci_eq("MOV"@, "ADD"@),
        !ci_eq("MOV"@, "SUB"@),
        !ci_eq("MOV"@, "MUL"@),
{
    reveal_strlit("MOV");
    reveal_strlit("ADD");
    reveal_strlit("SUB");
    reveal_strlit("MUL");
    lemma_not_ci("MOV"@, "ADD"@, 0);
    lemma_not_ci("MOV"@, "SUB"@, 0);
    lemma_not_ci("MOV"@, "MUL"@, 1);
}

/// `SWAP` matches its own name and none tried before it.
proof fn lemma_opcode_swap()
    ensures
        ci_eq("SWAP"@, "SWAP"@),
        !ci_eq("SWAP"@, "ADD"@),
        !ci_eq("SWAP"@, "SUB"@),
        !ci_eq("SWAP"@, "MUL"@),
        !ci_eq("SWAP"@, "MOV"@),
{
    reveal_strlit("SWAP");
    reveal_strlit("ADD");
    reveal_strlit("SUB");
    reveal_strlit("MUL");
    reveal_strlit("MOV");
}

/// `DIV` matches its own name and none tried before it.
proof fn lemma_opcode_div()
    ensures
        ci_eq("DIV"@, "DIV"@),
        !ci_eq("DIV"@, "ADD"@),
        !ci_eq("DIV"@, "SUB"@),
        !ci_eq("DIV"@, "MUL"@),
        !ci_eq("DIV"@, "MOV"@),
        !ci_eq("DIV"@, "SWAP"@),
{
    reveal_strlit("DIV");
    reveal_strlit("ADD");
    reveal_strlit("SUB");
    reveal_strlit("MUL");
    reveal_strlit("MOV");
    reveal_strlit("SWAP");
    lemma_not_ci("DIV"@, "ADD"@, 0);
    lemma_not_ci("DIV"@, "SUB"@, 0);
    lemma_not_ci("DIV"@, "MUL"@, 0);
    lemma_not_ci("DIV"@, "MOV"@, 0);
}

/// `CLR` matches its own name and none tried before it.
proof fn lemma_opcode_clr()
    ensures
        ci_eq("CLR"@, "CLR"@),
        !ci_eq("CLR"@, "ADD"@),
        !ci_eq("CLR"@, "SUB"@),
        !ci_eq("CLR"@, "MUL"@),
        !ci_eq("CLR"@, "MOV"@),
        !ci_eq("CLR"@, "SWAP"@),
        !ci_eq("CLR"@, "DIV"@),
{
    reveal_strlit("CLR");
    reveal_strlit("ADD");
    reveal_strlit("SUB");
    reveal_strlit("MUL");
    reveal_strlit("MOV");
    reveal_strlit("SWAP");
    reveal_strlit("DIV");
    lemma_not_ci("CLR"@, "ADD"@, 0);
    lemma_not_ci("CLR"@, "SUB"@, 0);
    lemma_not_ci("CLR"@, "MUL"@, 0);
    lemma_not_ci("CLR"@, "MOV"@, 0);
    lemma_not_ci("CLR"@, "DIV"@, 0);
}

/// `DEC` matches its own name and none tried before it.
proof fn lemma_opcode_dec()
    ensures
        ci_eq("DEC"@, "DEC"@),
        !ci_eq("DEC"@, "ADD"@),
        !ci_eq("DEC"@, "SUB"@),
        !ci_eq("DEC"@, "MUL"@),
        !ci_eq("DEC"@, "MOV"@),
        !ci_eq("DEC"@, "SWAP"@),
        !ci_eq("DEC"@, "DIV"@),
        !ci_eq("DEC"@, "CLR"@),
{
    reveal_strlit("DEC");
    reveal_strlit("ADD");
    reveal_strlit("SUB");
    reveal_strlit("MUL");
    reveal_strlit("MOV");
    reveal_strlit("SWAP");
    reveal_strlit("DIV");
    reveal_strlit("CLR");
    lemma_not_ci("DEC"@, "ADD"@, 0);
    lemma_not_ci("DEC"@, "SUB"@, 0);
    lemma_not_ci("DEC"@, "MUL"@, 0);
    lemma_not_ci("DEC"@, "MOV"@, 0);
    lemma_not_ci("DEC"@, "DIV"@, 1);
    lemma_not_ci("DEC"@, "CLR"@, 0);
}

/// `INC` matches its own name and none tried before it.
proof fn lemma_opcode_inc()
    ensures
        ci_eq("INC"@, "INC"@),
        !ci_eq("INC"@, "ADD"@),
        !ci_eq("INC"@, "SUB"@),
        !ci_eq("INC"@, "MUL"@),
        !ci_eq("INC"@, "MOV"@),
        !ci_eq("INC"@, "SWAP"@),
        !ci_eq("INC"@, "DIV"@),
        !ci_eq("INC"@, "CLR"@),
        !ci_eq("INC"@, "DEC"@),
{
    reveal_strlit("INC");
    reveal_strlit("ADD");
    reveal_strlit("SUB");
    reveal_strlit("MUL");
    reveal_strlit("MOV");
    reveal_strlit("SWAP");
    reveal_strlit("DIV");
    reveal_strlit("CLR");
    reveal_strlit("DEC");
    lemma_not_ci("INC"@, "ADD"@, 0);
    lemma_not_ci("INC"@, "SUB"@, 0);
    lemma_not_ci("INC"@, "MUL"@, 0);
    lemma_not_ci("INC"@, "MOV"@, 0);
    lemma_not_ci("INC"@, "DIV"@, 0);
    lemma_not_ci("INC"@, "CLR"@, 0);
    lemma_not_ci("INC"@, "DEC"@, 0);
}

/// `CMP` matches its own name and none tried before it.
proof fn lemma_opcode_cmp()
    ensures
        ci_eq("CMP"@, "CMP"@),
        !ci_eq("CMP"@, "ADD"@),
        !ci_eq("CMP"@, "SUB"@),
        !ci_eq("CMP"@, "MUL"@),
        !ci_eq("CMP"@, "MOV"@),
        !ci_eq("CMP"@, "SWAP"@),
        !ci_eq("CMP"@, "DIV"@),
        !ci_eq("CMP"@, "CLR"@),
        !ci_eq("CMP"@, "DEC"@),
        !ci_eq("CMP"@, "INC"@),
{
    reveal_strlit("CMP");
    reveal_strlit("ADD");
    reveal_strlit("SUB");
    reveal_strlit("MUL");
    reveal_strlit("MOV");
    reveal_strlit("SWAP");
    reveal_strlit("DIV");
    reveal_strlit("CLR");
    reveal_strlit("DEC");
    reveal_strlit("INC");
    lemma_not_ci("CMP"@, "ADD"@, 0);
    lemma_not_ci("CMP"@, "SUB"@, 0);
    lemma_not_ci("CMP"@, "MUL"@, 0);
    lemma_not_ci("CMP"@, "MOV"@, 0);
    lemma_not_ci("CMP"@, "DIV"@, 0);
    lemma_not_ci("CMP"@, "CLR"@, 1);
    lemma_not_ci("CMP"@, "DEC"@, 0);
    lemma_not_ci("CMP"@, "INC"@, 0);
}

/// `HALT` matches its own name and none tried before it.
proof fn lemma_opcode_halt()
    ensures
        ci_eq("HALT"@, "HALT"@),
        !ci_eq("HALT"@, "ADD"@),
        !ci_eq("HALT"@, "SUB"@),
        !ci_eq("HALT"@, "MUL"@),
        !ci_eq("HALT"@, "MOV"@),
        !ci_eq("HALT"@, "SWAP"@),
        !ci_eq("HALT"@, "DIV"@),
        !ci_eq("HALT"@, "CLR"@),
        !ci_eq("HALT"@, "DEC"@),
        !ci_eq("HALT"@, "INC"@),
        !ci_eq("HALT"@, "CMP"@),
{
    reveal_strlit("HALT");
    reveal_strlit("ADD");
    reveal_strlit("SUB");
    reveal_strlit("MUL");
    reveal_strlit("MOV");
    reveal_strlit("SWAP");
    reveal_strlit("DIV");
    reveal_strlit("CLR");
    reveal_strlit("DEC");
    reveal_strlit("INC");
    reveal_strlit("CMP");
    lemma_not_ci("HALT"@, "SWAP"@, 0);
}

/// `PRINT` matches its own name and none tried before it.
proof fn lemma_opcode_print()
    ensures
        ci_eq("PRINT"@, "PRINT"@),
        !ci_eq("PRINT"@, "ADD"@),
        !ci_eq("PRINT"@, "SUB"@),
        !ci_eq("PRINT"@, "MUL"@),
        !ci_eq("PRINT"@, "MOV"@),
        !ci_eq("PRINT"@, "SWAP"@),
        !ci_eq("PRINT"@, "DIV"@),
        !ci_eq("PRINT"@, "CLR"@),
        !ci_eq("PRINT"@, "DEC"@),
        !ci_eq("PRINT"@, "INC"@),
        !ci_eq("PRINT"@, "CMP"@),
        !ci_eq("PRINT"@, "HALT"@),
{
    reveal_strlit("PRINT");
    reveal_strlit("ADD");
    reveal_strlit("SUB");
    reveal_strlit("MUL");
    reveal_strlit("MOV");
    reveal_strlit("SWAP");
    reveal_strlit("DIV");
    reveal_strlit("CLR");
    reveal_strlit("DEC");
    reveal_strlit("INC");
    reveal_strlit("CMP");
    reveal_strlit("HALT");
}

/// `POW` matches its own name and none tried before it.
proof fn lemma_opcode_pow()
    ensures
        ci_eq("POW"@, "POW"@),
        !ci_eq("POW"@, "ADD"@),
        !ci_eq("POW"@, "SUB"@),
        !ci_eq("POW"@, "MUL"@),
        !ci_eq("POW"@, "MOV"@),
        !ci_eq("POW"@, "SWAP"@),
        !ci_eq("POW"@, "DIV"@),
        !ci_eq("POW"@, "CLR"@),
        !ci_eq("POW"@, "DEC"@),
        !ci_eq("POW"@, "INC"@),
        !ci_eq("POW"@, "CMP"@),
        !ci_eq("POW"@, "HALT"@),
        !ci_eq("POW"@, "PRINT"@),
{
    reveal_strlit("POW");
    reveal_strlit("ADD");
    reveal_strlit("SUB");
    reveal_strlit("MUL");
    reveal_strlit("MOV");
    reveal_strlit("SWAP");
    reveal_strlit("DIV");
    reveal_strlit("CLR");
    reveal_strlit("DEC");
    reveal_strlit("INC");
    reveal_strlit("CMP");
    reveal_strlit("HALT");
    reveal_strlit("PRINT");
    lemma_not_ci("POW"@, "ADD"@, 0);
    lemma_not_ci("POW"@, "SUB"@, 0);
    lemma_not_ci("POW"@, "MUL"@, 0);
    lemma_not_ci("POW"@, "MOV"@, 0);
    lemma_not_ci("POW"@, "DIV"@, 0);
    lemma_not_ci("POW"@, "CLR"@, 0);
    lemma_not_ci("POW"@, "DEC"@, 0);
    lemma_not_ci("POW"@, "INC"@, 0);
    lemma_not_ci("POW"@, "CMP"@, 0);
}

/// `MOVR` matches its own name and none tried before it.
proof fn lemma_opcode_movr()
    ensures
        ci_eq("MOVR"@, "MOVR"@),
        !ci_eq("MOVR"@, "ADD"@),
        !ci_eq("MOVR"@, "SUB"@),
        !ci_eq("MOVR"@, "MUL"@),
        !ci_eq("MOVR"@, "MOV"@),
        !ci_eq("MOVR"@, "SWAP"@),
        !ci_eq("MOVR"@, "DIV"@),
        !ci_eq("MOVR"@, "CLR"@),
        !ci_eq("MOVR"@, "DEC"@),
        !ci_eq("MOVR"@, "INC"@),
        !ci_eq("MOVR"@, "CMP"@),
        !ci_eq("MOVR"@, "HALT"@),
        !ci_eq("MOVR"@, "PRINT"@),
        !ci_eq("MOVR"@, "POW"@),
{
    reveal_strlit("MOVR");
    reveal_strlit("ADD");
    reveal_strlit("SUB");
    reveal_strlit("MUL");
    reveal_strlit("MOV");
    reveal_strlit("SWAP");
    reveal_strlit("DIV");
    reveal_strlit("CLR");
    reveal_strlit("DEC");
    reveal_strlit("INC");
    reveal_strlit("CMP");
    reveal_strlit("HALT");
    reveal_strlit("PRINT");
    reveal_strlit("POW");
    lemma_not_ci("MOVR"@, "SWAP"@, 0);
    lemma_not_ci("MOVR"@, "HALT"@, 0);
}

/// `JMP` matches its own name and none tried before it.
proof fn lemma_opcode_jmp()
    ensures
        ci_eq("JMP"@, "JMP"@),
        !ci_eq("JMP"@, "ADD"@),
        !ci_eq("JMP"@, "SUB"@),
        !ci_eq("JMP"@, "MUL"@),
        !ci_eq("JMP"@, "MOV"@),
        !ci_eq("JMP"@, "SWAP"@),
        !ci_eq("JMP"@, "DIV"@),
        !ci_eq("JMP"@, "CLR"@),
        !ci_eq("JMP"@, "DEC"@),
        !ci_eq("JMP"@, "INC"@),
        !ci_eq("JMP"@, "CMP"@),
        !ci_eq("JMP"@, "HALT"@),
        !ci_eq("JMP"@, "PRINT"@),
        !ci_eq("JMP"@, "POW"@),
        !ci_eq("JMP"@, "MOVR"@),
{
    reveal_strlit("JMP");
    reveal_strlit("ADD");
    reveal_strlit("SUB");
    reveal_strlit("MUL");
    reveal_strlit("MOV");
    reveal_strlit("SWAP");
    reveal_strlit("DIV");
    reveal_strlit("CLR");
    reveal_strlit("DEC");
    reveal_strlit("INC");
    reveal_strlit("CMP");
    reveal_strlit("HALT");
    reveal_strlit("PRINT");
    reveal_strlit("POW");
    reveal_strlit("MOVR");
    lemma_not_ci("JMP"@, "ADD"@, 0);
    lemma_not_ci("JMP"@, "SUB"@, 0);
    lemma_not_ci("JMP"@, "MUL"@, 0);
    lemma_not_ci("JMP"@, "MOV"@, 0);
    lemma_not_ci("JMP"@, "DIV"@, 0);
    lemma_not_ci("JMP"@, "CLR"@, 0);
    lemma_not_ci("JMP"@, "DEC"@, 0);
    lemma_not_ci("JMP"@, "INC"@, 0);
    lemma_not_ci("JMP"@, "CMP"@, 0);
    lemma_not_ci("JMP"@, "POW"@, 0);
}

proof fn lemma_decode_add(a: u16, b: u16, line: nat)
    ensures
        decode(encode_tokens(Instruction::ADD(a, b)), line) == Ok::<Instruction, Fault>(Instruction::ADD(a, b)),
{
    lemma_zero_token();
    lemma_opcode_add();
    lemma_dec_text_resolves(a);
    lemma_dec_text_resolves(b);
}

proof fn lemma_decode_sub(a: u16, b: u16, line: nat)
    ensures
        decode(encode_tokens(Instruction::SUB(a, b)), line) == Ok::<Instruction, Fault>(Instruction::SUB(a, b)),
{
    lemma_zero_token();
    lemma_opcode_sub();
    lemma_dec_text_resolves(a);
    lemma_dec_text_resolves(b);
}

proof fn lemma_decode_mul(a: u16, b: u16, line: nat)
    ensures
        decode(encode_tokens(Instruction::MUL(a, b)), line) == Ok::<Instruction, Fault>(Instruction::MUL(a, b)),
{
    lemma_zero_token();
    lemma_opcode_mul();
    lemma_dec_text_resolves(a);
    lemma_dec_text_resolves(b);
}

proof fn lemma_decode_mov(a: u16, b: u16, line: nat)
    ensures
        decode(encode_tokens(Instruction::MOV(a, b)), line) == Ok::<Instruction, Fault>(Instruction::MOV(a, b)),
{
    lemma_zero_token();
    lemma_opcode_mov();
    lemma_dec_text_resolves(a);
    lemma_dec_text_resolves(b);
}

proof fn lemma_decode_swap(a: u16, b: u16, line: nat)
    ensures
        decode(encode_tokens(Instruction::SWAP(a, b)), line) == Ok::<Instruction, Fault>(Instruction::SWAP(a, b)),
{
    lemma_zero_token();
    lemma_opcode_swap();
    lemma_dec_text_resolves(a);
    lemma_dec_text_resolves(b);
}

proof fn lemma_decode_div(a: u16, b: u16, line: nat)
    ensures
        decode(encode_tokens(Instruction::DIV(a, b)), line) == Ok::<Instruction, Fault>(Instruction::DIV(a, b)),
{
    lemma_zero_token();
    lemma_opcode_div();
    lemma_dec_text_resolves(a);
    lemma_dec_text_resolves(b);
}

proof fn lemma_decode_clr(a: u16, line: nat)
    ensures
        decode(encode_tokens(Instruction::CLR(a)), line) == Ok::<Instruction, Fault>(Instruction::CLR(a)),
{
    lemma_zero_token();
    lemma_opcode_clr();
    lemma_dec_text_resolves(a);
}

proof fn lemma_decode_dec(a: u16, line: nat)
    ensures
        decode(encode_tokens(Instruction::DEC(a)), line) == Ok::<Instruction, Fault>(Instruction::DEC(a)),
{
    lemma_zero_token();
    lemma_opcode_dec();
    lemma_dec_text_resolves(a);
}

proof fn lemma_decode_inc(a: u16, line: nat)
    ensures
        decode(encode_tokens(Instruction::INC(a)), line) == Ok::<Instruction, Fault>(Instruction::INC(a)),
{
    lemma_zero_token();
    lemma_opcode_inc();
    lemma_dec_text_resolves(a);
}

proof fn lemma_decode_cmp(a: u16, b: u16, line: nat)
    ensures
        decode(encode_tokens(Instruction::CMP(a, b)), line) == Ok::<Instruction, Fault>(Instruction::CMP(a, b)),
{
    lemma_zero_token();
    lemma_opcode_cmp();
    lemma_dec_text_resolves(a);
    lemma_dec_text_resolves(b);
}

proof fn lemma_decode_halt(line: nat)
    ensures
        decode(encode_tokens(Instruction::HALT), line) == Ok::<Instruction, Fault>(Instruction::HALT),
{
    lemma_zero_token();
    lemma_opcode_halt();
}

proof fn lemma_decode_print(a: u16, line: nat)
    ensures
        decode(encode_tokens(Instruction::PRINT(a)), line) == Ok::<Instruction, Fault>(Instruction::PRINT(a)),
{
    lemma_zero_token();
    lemma_opcode_print();
    lemma_dec_text_resolves(a);
}

proof fn lemma_decode_pow(a: u16, e: u32, line: nat)
    requires
        e <= 0xffff,
    ensures
        decode(encode_tokens(Instruction::POW(a, e)), line) == Ok::<Instruction, Fault>(Instruction::POW(a, e)),
{
    lemma_zero_token();
    lemma_opcode_pow();
    lemma_dec_text_resolves(a);
    lemma_dec_text_resolves(e as u16);
}

proof fn lemma_decode_movr(a: u16, b: u16, line: nat)
    ensures
        decode(encode_tokens(Instruction::MOVR(a, b)), line) == Ok::<Instruction, Fault>(Instruction::MOVR(a, b)),
{
    lemma_zero_token();
    lemma_opcode_movr();
    lemma_dec_text_resolves(a);
    lemma_dec_text_resolves(b);
}

proof fn lemma_decode_jmp(a: u16, line: nat)
    ensures
        decode(encode_tokens(Instruction::JMP(a)), line) == Ok::<Instruction, Fault>(Instruction::JMP(a)),
{
    lemma_zero_token();
    lemma_opcode_jmp();
    lemma_dec_text_resolves(a);
}
pub proof fn lemma_decode_tokens(ins: Instruction, line: nat)
    requires
        encodable(ins),
    ensures
        decode(encode_tokens(ins), line) == Ok::<Instruction, Fault>(ins),
{
    match ins {
        Instruction::ADD(a, b) => lemma_decode_add(a, b, line),
        Instruction::SUB(a, b) => lemma_decode_sub(a, b, line),
        Instruction::MUL(a, b) => lemma_decode_mul(a, b, line),
        Instruction::MOV(a, b) => lemma_decode_mov(a, b, line),
        Instruction::SWAP(a, b) => lemma_decode_swap(a, b, line),
        Instruction::DIV(a, b) => lemma_decode_div(a, b, line),
        Instruction::CLR(a) => lemma_decode_clr(a, line),
        Instruction::DEC(a) => lemma_decode_dec(a, line),
        Instruction::INC(a) => lemma_decode_inc(a, line),
        Instruction::CMP(a, b) => lemma_decode_cmp(a, b, line),
        Instruction::HALT => lemma_decode_halt(line),
        Instruction::PRINT(a) => lemma_decode_print(a, line),
        Instruction::POW(a, e) => lemma_decode_pow(a, e, line),
        Instruction::MOVR(a, b) => lemma_decode_movr(a, b, line),
        Instruction::JMP(a) => lemma_decode_jmp(a, line),
    }
}

/// Decoding the source line of an instruction gives that instruction back,
/// whatever line it stands on.
pub proof fn lemma_encode_decode(ins: Instruction, line: nat)
    requires
        encodable(ins),
    ensures
        decode(line_tokens(encode_spec(ins)), line) == Ok::<Instruction, Fault>(ins),
{
    lemma_encode_lexes(ins);
    lemma_decode_tokens(ins, line);
}

/// A line with no newline in it.
pub open spec fn one_line(w: Seq<char>) -> bool {
    forall|i: int| 0 <= i < w.len() ==> #[trigger] w[i] != '\n'
}

proof fn lemma_split_append(s: Seq<char>, w: Seq<char>)
    requires
        one_line(w),
    ensures
        split_nl(s + seq!['\n'] + w) == split_nl(s).push(w),
    decreases w.len(),
{
    let x = s + seq!['\n'] + w;
    if w.len() == 0 {
        assert(w =~= Seq::<char>::empty());
        assert(x =~= s.push('\n'));
        assert(x.drop_last() =~= s);
        assert(x.last() == '\n');
    } else {
        let v = w.drop_last();
        assert(one_line(v)) by {
            assert forall|i: int| 0 <= i < v.len() implies #[trigger] v[i] != '\n' by {
                assert(v[i] == w[i]);
            }
        }
        lemma_split_append(s, v);
        assert(x.drop_last() =~= s + seq!['\n'] + v);
        assert(x.last() == w.last());
        assert(w.last() != '\n');
        assert(v.push(w.last()) =~= w);
        assert(split_nl(s).push(v).update(split_nl(s).len() as int, w) =~= split_nl(s).push(w));
    }
}

proof fn lemma_split_single(w: Seq<char>)
    requires
        one_line(w),
    ensures
        split_nl(w) == seq![w],
    decreases w.len(),
{
    if w.len() == 0 {
        assert(w =~= Seq::<char>::empty());
        assert(split_nl(w) =~= seq![w]);
    } else {
        let v = w.drop_last();
        assert(one_line(v)) by {
            assert forall|i: int| 0 <= i < v.len() implies #[trigger] v[i] != '\n' by {
                assert(v[i] == w[i]);
            }
        }
        lemma_split_single(v);
        assert(w.last() != '\n');
        assert(v.push(w.last()) =~= w);
        assert(seq![v].update(0, w) =~= seq![w]);
    }
}

pub proof fn lemma_split_join(ls: Seq<Seq<char>>)
    requires
        ls.len() > 0,
        forall|i: int| 0 <= i < ls.len() ==> one_line(#[trigger] ls[i]),
    ensures
        split_nl(join_lines(ls)) == ls,
    decreases ls.len(),
{
    if ls.len() == 1 {
        lemma_split_single(ls[0]);
        assert(seq![ls[0]] =~= ls);
    } else {
        let p = ls.drop_last();
        assert forall|i: int| 0 <= i < p.len() implies one_line(#[trigger] p[i]) by {
            assert(p[i] == ls[i]);
        }
        lemma_split_join(p);
        assert(one_line(ls.last()));
        lemma_split_append(join_lines(p), ls.last());
        assert(p.push(ls.last()) =~= ls);
    }
}

/// An encoded line is one line, not empty, and its opcode is no directive.
pub proof fn lemma_encoded_line(ins: Instruction)
    ensures
        one_line(encode_spec(ins)),
        encode_spec(ins).len() > 0,
        encode_tokens(ins).len() > 0,
        !is_directive(encode_tokens(ins)[0]),
{
    reveal_strlit("ADD");
    reveal_strlit("SUB");
    reveal_strlit("MUL");
    reveal_strlit("MOV");
    reveal_strlit("SWAP");
    reveal_strlit("DIV");
    reveal_strlit("CLR");
    reveal_strlit("DEC");
    reveal_strlit("INC");
    reveal_strlit("CMP");
    reveal_strlit("HALT");
    reveal_strlit("PRINT");
    reveal_strlit("POW");
    reveal_strlit("MOVR");
    reveal_strlit("JMP");
    lemma_encode_lexes(ins);
    let t = encode_spec(ins);
    let ws = encode_tokens(ins);
    assert forall|i: int| 0 <= i < t.len() implies #[trigger] t[i] != '\n' by {
        assert(!crate::helpers::is_white(t[i]) || t[i] == ' ') by {
            lemma_join_chars(ws, i);
        }
    }
}

proof fn lemma_assemble_encoded(list: Seq<Instruction>, k: nat)
    requires
        forall|i: int| 0 <= i < list.len() ==> encodable(#[trigger] list[i]),
        k <= list.len(),
    ensures
        assemble_prefix(list.map_values(|i: Instruction| encode_tokens(i)), k) == Ok::<AsmState, Fault>(
            AsmState { global: list.take(k as int), functions: seq![], open: None, body: seq![] },
        ),
    decreases k,
{
    let tl = list.map_values(|i: Instruction| encode_tokens(i));
    if k == 0 {
        assert(list.take(0) =~= Seq::<Instruction>::empty());
    } else {
        lemma_assemble_encoded(list, (k - 1) as nat);
        let ins = list[k - 1];
        assert(encodable(ins));
        lemma_encoded_line(ins);
        lemma_decode_tokens(ins, (k - 1) as nat);
        assert(tl[k - 1] == encode_tokens(ins));
        assert(list.take(k - 1).push(ins) =~= list.take(k as int));
    }
}

/// Parsing the source text of an instruction list gives back that list,
/// followed by the `HALT` that the assembler appends, with no function blocks.
pub proof fn lemma_program_round_trip(list: Seq<Instruction>)
    requires
        forall|i: int| 0 <= i < list.len() ==> encodable(#[trigger] list[i]),
    ensures
        parse_spec(program_text(list)) == Ok::<ProgramModel, Fault>(
            ProgramModel { global: list.push(Instruction::HALT), functions: seq![] },
        ),
{
    let ls = list.map_values(|i: Instruction| encode_spec(i));
    let tl = list.map_values(|i: Instruction| encode_tokens(i));
    let text = program_text(list);
    if list.len() == 0 {
        assert(text =~= Seq::<char>::empty());
        assert(lines(text) =~= Seq::<Seq<char>>::empty());
        assert(lex_spec(text) =~= Seq::<Seq<Seq<char>>>::empty());
        assert(list.push(Instruction::HALT) =~= seq![Instruction::HALT]);
    } else {
        assert forall|i: int| 0 <= i < ls.len() implies one_line(#[trigger] ls[i]) by {
            lemma_encoded_line(list[i]);
        }
        lemma_split_join(ls);
        lemma_encoded_line(list.last());
        assert(lines(text) == ls);
        assert forall|i: int| 0 <= i < ls.len() implies #[trigger] lex_spec(text)[i] == tl[i] by {
            lemma_encode_lexes(list[i]);
        }
        assert(lex_spec(text) =~= tl);
        lemma_assemble_encoded(list, list.len());
        assert(list.take(list.len() as int) =~= list);
    }
}

/// Each character of joined words is a space or a character of a word.
pub proof fn lemma_join_chars(ws: Seq<Seq<char>>, i: int)
    requires
        ws.len() > 0,
        forall|k: int| 0 <= k < ws.len() ==> plain_word(#[trigger] ws[k]),
        0 <= i < join(ws).len(),
    ensures
        !is_white(join(ws)[i]) || join(ws)[i] == ' ',
    decreases ws.len(),
{
    if ws.len() == 1 {
        assert(plain_word(ws[0]));
    } else {
        let p = ws.drop_last();
        assert forall|k: int| 0 <= k < p.len() implies plain_word(#[trigger] p[k]) by {
            assert(p[k] == ws[k]);
        }
        let j = join(p);
        if i < j.len() {
            lemma_join_chars(p, i);
            assert(join(ws)[i] == j[i]);
        } else if i > j.len() {
            assert(plain_word(ws.last()));
            assert(join(ws)[i] == ws.last()[i - j.len() - 1]);
        }
    }
}

} // verus!
