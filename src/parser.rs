use vstd::prelude::*;

use crate::helpers::{has_b_with_num, is_digit as is_digit_char, letter_index, letter_to_integer, marker_then_digit};
use crate::instruction::Instruction;
use crate::number::{all_digits, binary_i32, decimal_u16, digit_val, digits_value, parse_digits};

verus! {

/// Why a program text was rejected.
#[derive(Clone, Debug, PartialEq, Eq)]
pub enum ParseError {
    /// A `b`-marked token whose digits do not form a binary number.
    BadBinary { token: String, line: usize },
    /// An opcode that names no instruction.
    UnknownOpcode { token: String, line: usize },
    /// `.end` with no function block open.
    EndWithoutBlock { line: usize },
    /// A block directive while another block is still open.
    NestedBlock { line: usize },
    /// Input ended inside the block of this name.
    UnterminatedBlock { name: String },
}

/// `ParseError` with its strings seen as character sequences.
pub enum Fault {
    BadBinary { token: Seq<char>, line: nat },
    UnknownOpcode { token: Seq<char>, line: nat },
    EndWithoutBlock { line: nat },
    NestedBlock { line: nat },
    UnterminatedBlock { name: Seq<char> },
}

impl View for ParseError {
    type V = Fault;

    open spec fn view(&self) -> Fault {
        match self {
            ParseError::BadBinary { token, line } => Fault::BadBinary { token: token@, line: *line as nat },
            ParseError::UnknownOpcode { token, line } => Fault::UnknownOpcode { token: token@, line: *line as nat },
            ParseError::EndWithoutBlock { line } => Fault::EndWithoutBlock { line: *line as nat },
            ParseError::NestedBlock { line } => Fault::NestedBlock { line: *line as nat },
            ParseError::UnterminatedBlock { name } => Fault::UnterminatedBlock { name: name@ },
        }
    }
}

/// Register index named by the first character of `t`, or 0 when that is no letter.
pub open spec fn letter_or_zero(t: Seq<char>) -> u16 {
    if t.len() > 0 {
        match letter_index(t[0]) {
            Some(n) => n as u16,
            None => 0,
        }
    } else {
        0
    }
}

/// The token starts with `b` or `B` and holds a marker followed by a digit.
pub open spec fn is_binary_literal(t: Seq<char>) -> bool {
    t.len() > 0 && (t[0] == 'b' || t[0] == 'B') && marker_then_digit(t)
}

/// Value of an operand token; `None` for a binary literal that does not parse.
///
/// A binary literal is read from its third character on, as a signed 32-bit
/// number kept modulo 2^16; otherwise a decimal `u16`; otherwise the register
/// letter of its first character, or 0.
pub open spec fn resolve(t: Seq<char>) -> Option<u16> {
    if is_binary_literal(t) {
        match binary_i32(t.skip(2)) {
            Some(v) => Some((v % 0x10000) as u16),
            None => None,
        }
    } else {
        match decimal_u16(t) {
            Some(v) => Some(v),
            None => Some(letter_or_zero(t)),
        }
    }
}

/// Parses a token as `str::parse::<u16>` does.
pub fn parse_decimal(s: &str) -> (r: Option<u16>)
    ensures
        r == decimal_u16(s@),
{
    let n = s.unicode_len();
    let start: usize = if n > 0 && s.get_char(0) == '+' { 1 } else { 0 };
    assert(s@.skip(0) =~= s@);
    match parse_digits(s, start, 10, 0xffff) {
        Some(v) => Some(v as u16),
        None => None,
    }
}

/// Resolves an operand token to a 16-bit value; `None` when a binary literal
/// is malformed.
pub fn parse_value(token: &String) -> (r: Option<u16>)
    ensures
        r == resolve(token@),
{
    let s = token.as_str();
    let n = s.unicode_len();
    if n > 0 {
        let c0 = s.get_char(0);
        if (c0 == 'b' || c0 == 'B') && has_b_with_num(s) {
            let ghost rest = s@.skip(2);
            assert(is_binary_literal(s@));
            assert(n >= 2);
            if n > 2 {
                assert(rest[0] == s@[2]);
            }
            if n > 2 && s.get_char(2) == '-' {
                assert(rest.skip(1) =~= s@.skip(3));
                match parse_digits(s, 3, 2, 0x8000_0000) {
                    Some(m) => {
                        let q: u64 = m % 0x10000;
                        let v: u64 = (0x10000 - q) % 0x10000;
                        proof {
                            lemma_neg_mod(m as int);
                        }
                        return Some(v as u16);
                    },
                    None => {
                        return None;
                    },
                }
            } else {
                let start: usize = if n > 2 && s.get_char(2) == '+' { 3 } else { 2 };
                if n > 2 {
                    assert(rest.skip(1) =~= s@.skip(3));
                }
                assert(rest.skip(0) =~= rest);
                match parse_digits(s, start, 2, 0x7fff_ffff) {
                    Some(m) => {
                        return Some((m % 0x10000) as u16);
                    },
                    None => {
                        return None;
                    },
                }
            }
        }
    }
    match parse_decimal(s) {
        Some(v) => Some(v),
        None => {
            if n > 0 {
                match letter_to_integer(s.get_char(0)) {
                    Some(k) => Some(k as u16),
                    None => Some(0),
                }
            } else {
                Some(0)
            }
        },
    }
}

/// Operand token `k` of a line, `"0"` when the line has none there.
pub open spec fn operand_token(tokens: Seq<Seq<char>>, k: int) -> Seq<char> {
    if k < tokens.len() {
        tokens[k]
    } else {
        seq!['0']
    }
}

/// Resolves operand tokens 1 and 2 of a line (`"0"` where missing).
/// On a malformed binary literal, returns that token as the error.
pub fn parse_operands(tokens: &Vec<String>) -> (r: Result<(u16, u16), String>)
    ensures
        ({
            let t = tokens.deep_view();
            let d = resolve(operand_token(t, 1));
            let s = resolve(operand_token(t, 2));
            match r {
                Ok((a, b)) => d == Some(a) && s == Some(b),
                Err(e) => if d is None {
                    e@ == operand_token(t, 1)
                } else {
                    s is None && e@ == operand_token(t, 2)
                },
            }
        }),
{
    proof {
        lemma_zero_token();
    }
    let dest: u16 = if tokens.len() > 1 {
        match parse_value(&tokens[1]) {
            Some(v) => v,
            None => {
                return Err(tokens[1].clone());
            },
        }
    } else {
        0
    };
    let src: u16 = if tokens.len() > 2 {
        match parse_value(&tokens[2]) {
            Some(v) => v,
            None => {
                return Err(tokens[2].clone());
            },
        }
    } else {
        0
    };
    Ok((dest, src))
}

pub proof fn lemma_zero_token()
    ensures
        resolve(seq!['0']) == Some(0u16),
{
    let t = seq!['0'];
    assert(!is_binary_literal(t));
    assert(t.drop_last() =~= Seq::<char>::empty());
    assert(digits_value(t.drop_last(), 10) == 0);
    assert(t.last() == '0');
    assert(digits_value(t, 10) == digits_value(t.drop_last(), 10) * 10 + crate::number::digit_val('0'));
    assert(t.skip(0) =~= t);
}

/// Characters that `char::to_uppercase` turns into the single upper-case
/// ASCII letter `w`: the letter itself, its lower-case form, and for `S`
/// the long s `ſ` (U+017F), for `I` the dotless i `ı` (U+0131).
pub open spec fn upper_is(c: char, w: char) -> bool {
    c == w || ('A' <= w && w <= 'Z' && c as u32 == w as u32 + 32) || (w == 'S' && c == '\u{17f}')
        || (w == 'I' && c == '\u{131}')
}

/// The token upper-cases (as `str::to_uppercase` does) to the opcode name
/// `w`, a word of upper-case ASCII letters. A character that upper-cases to
/// several (`ß` to `SS`, `ﬁ` to `FI`, ...) yields a pair that no opcode
/// name holds, so a match is one character for one.
pub open spec fn ci_eq(t: Seq<char>, w: Seq<char>) -> bool {
    t.len() == w.len() && forall|i: int| 0 <= i < t.len() ==> upper_is(#[trigger] t[i], w[i])
}

/// Tells whether `t` upper-cases to the opcode name `w`.
pub fn opcode_is(t: &str, w: &str) -> (r: bool)
    ensures
        r == ci_eq(t@, w@),
{
    let n = t.unicode_len();
    if n != w.unicode_len() {
        return false;
    }
    let mut i: usize = 0;
    while i < n
        invariant
            n == t@.len(),
            n == w@.len(),
            i <= n,
            forall|j: int| 0 <= j < i ==> upper_is(#[trigger] t@[j], w@[j]),
        decreases n - i,
    {
        let a = t.get_char(i);
        let b = w.get_char(i);
        if !(a == b || ('A' <= b && b <= 'Z' && a as u32 == b as u32 + 32) || (b == 'S' && a == '\u{17f}')
            || (b == 'I' && a == '\u{131}')) {
            return false;
        }
        i += 1;
    }
    true
}

/// Source of `MOV`: a decimal token is an immediate value, anything else
/// names a register by its first letter (0 when it is no letter).
pub open spec fn mov_of(dest: u16, src: Option<Seq<char>>) -> Instruction {
    match src {
        None => Instruction::MOV(dest, 0),
        Some(t) => match decimal_u16(t) {
            Some(v) => Instruction::MOV(dest, v),
            None => Instruction::MOVR(dest, letter_or_zero(t)),
        },
    }
}

/// The instruction an opcode names, given its resolved operands;
/// `None` for an unknown opcode.
pub open spec fn select(op: Seq<char>, d: u16, s: u16, src: Option<Seq<char>>) -> Option<Instruction> {
    if ci_eq(op, "ADD"@) {
        Some(Instruction::ADD(d, s))
    } else if ci_eq(op, "SUB"@) {
        Some(Instruction::SUB(d, s))
    } else if ci_eq(op, "MUL"@) {
        Some(Instruction::MUL(d, s))
    } else if ci_eq(op, "MOV"@) {
        Some(mov_of(d, src))
    } else if ci_eq(op, "SWAP"@) {
        Some(Instruction::SWAP(d, s))
    } else if ci_eq(op, "DIV"@) {
        Some(Instruction::DIV(d, s))
    } else if ci_eq(op, "CLR"@) {
        Some(Instruction::CLR(d))
    } else if ci_eq(op, "DEC"@) {
        Some(Instruction::DEC(d))
    } else if ci_eq(op, "INC"@) {
        Some(Instruction::INC(d))
    } else if ci_eq(op, "CMP"@) {
        Some(Instruction::CMP(d, s))
    } else if ci_eq(op, "HALT"@) {
        Some(Instruction::HALT)
    } else if ci_eq(op, "PRINT"@) {
        Some(Instruction::PRINT(d))
    } else if ci_eq(op, "POW"@) {
        Some(Instruction::POW(d, s as u32))
    } else if ci_eq(op, "MOVR"@) {
        Some(Instruction::MOVR(d, s))
    } else if ci_eq(op, "JMP"@) {
        Some(Instruction::JMP(d))
    } else {
        None
    }
}

/// Decoding of one non-empty token line found on line `line`.
pub open spec fn decode(tokens: Seq<Seq<char>>, line: nat) -> Result<Instruction, Fault> {
    let dt = operand_token(tokens, 1);
    let st = operand_token(tokens, 2);
    if resolve(dt) is None {
        Err(Fault::BadBinary { token: dt, line })
    } else if resolve(st) is None {
        Err(Fault::BadBinary { token: st, line })
    } else {
        let src = if tokens.len() > 2 { Some(tokens[2]) } else { None };
        match select(tokens[0], resolve(dt)->0, resolve(st)->0, src) {
            Some(i) => Ok(i),
            None => Err(Fault::UnknownOpcode { token: tokens[0], line }),
        }
    }
}

/// Decodes the tokens of one line into an instruction.
pub fn parse_instruction(tokens: &Vec<String>, line_number: usize) -> (r: Result<Instruction, ParseError>)
    requires
        tokens.len() > 0,
    ensures
        match r {
            Ok(i) => decode(tokens.deep_view(), line_number as nat) == Ok::<Instruction, Fault>(i),
            Err(e) => decode(tokens.deep_view(), line_number as nat) == Err::<Instruction, Fault>(e@),
        },
{
    let ghost t = tokens.deep_view();
    assert(t[0] == tokens[0]@);
    let (dest, src) = match parse_operands(tokens) {
        Ok(p) => p,
        Err(token) => {
            return Err(ParseError::BadBinary { token, line: line_number });
        },
    };
    let op = tokens[0].as_str();
    let ins = if opcode_is(op, "ADD") {
        Instruction::ADD(dest, src)
    } else if opcode_is(op, "SUB") {
        Instruction::SUB(dest, src)
    } else if opcode_is(op, "MUL") {
        Instruction::MUL(dest, src)
    } else if opcode_is(op, "MOV") {
        if tokens.len() > 2 {
            assert(t[2] == tokens[2]@);
            let s = tokens[2].as_str();
            match parse_decimal(s) {
                Some(v) => Instruction::MOV(dest, v),
                None => {
                    let k: u16 = if s.unicode_len() > 0 {
                        match letter_to_integer(s.get_char(0)) {
                            Some(k) => k as u16,
                            None => 0,
                        }
                    } else {
                        0
                    };
                    Instruction::MOVR(dest, k)
                },
            }
        } else {
            Instruction::MOV(dest, 0)
        }
    } else if opcode_is(op, "SWAP") {
        Instruction::SWAP(dest, src)
    } else if opcode_is(op, "DIV") {
        Instruction::DIV(dest, src)
    } else if opcode_is(op, "CLR") {
        Instruction::CLR(dest)
    } else if opcode_is(op, "DEC") {
        Instruction::DEC(dest)
    } else if opcode_is(op, "INC") {
        Instruction::INC(dest)
    } else if opcode_is(op, "CMP") {
        Instruction::CMP(dest, src)
    } else if opcode_is(op, "HALT") {
        Instruction::HALT
    } else if opcode_is(op, "PRINT") {
        Instruction::PRINT(dest)
    } else if opcode_is(op, "POW") {
        Instruction::POW(dest, src as u32)
    } else if opcode_is(op, "MOVR") {
        Instruction::MOVR(dest, src)
    } else if opcode_is(op, "JMP") {
        Instruction::JMP(dest)
    } else {
        return Err(ParseError::UnknownOpcode { token: tokens[0].clone(), line: line_number });
    };
    Ok(ins)
}

/// A token of decimal digits worth at most 65535 resolves to exactly that value.
pub proof fn lemma_decimal_token_resolves(t: Seq<char>)
    requires
        t.len() > 0,
        all_digits(t, 10),
        digits_value(t, 10) <= 0xffff,
    ensures
        resolve(t) == Some(digits_value(t, 10) as u16),
{
    assert(0 <= digit_val(t[0]) < 10);
    assert(t.skip(0) =~= t);
}

/// A leading `0` digit adds nothing to the value of a binary digit string.
proof fn lemma_leading_zero(d: Seq<char>)
    requires
        d.len() >= 1,
        d[0] == '0',
    ensures
        digits_value(d, 2) == digits_value(d.skip(1), 2),
    decreases d.len(),
{
    if d.len() == 1 {
        assert(d.skip(1) =~= Seq::<char>::empty());
        assert(d.drop_last() =~= Seq::<char>::empty());
    } else {
        lemma_leading_zero(d.drop_last());
        assert(d.skip(1).drop_last() =~= d.drop_last().skip(1));
        assert(d.skip(1).last() == d.last());
    }
}

/// A `b`-marked binary literal is read from its third character on: `b`
/// followed by binary digits `d`, at least two of them, resolves to the
/// value of `d` without its first digit, kept modulo 2^16. Where that first
/// digit is `0`, this is the value of all of `d`.
pub proof fn lemma_binary_token_resolves(d: Seq<char>)
    requires
        d.len() >= 2,
        all_digits(d, 2),
        digits_value(d.skip(1), 2) <= 0x7fff_ffff,
    ensures
        resolve(seq!['b'] + d) == Some((digits_value(d.skip(1), 2) % 0x10000) as u16),
        d[0] == '0' ==> resolve(seq!['b'] + d) == Some((digits_value(d, 2) % 0x10000) as u16),
{
    let t = seq!['b'] + d;
    assert(t[0] == 'b');
    assert(t[1] == d[0]);
    assert(0 <= digit_val(d[0]) < 2);
    assert((t[1] as u32) >= ('0' as u32) && (t[1] as u32) <= ('9' as u32));
    assert(is_digit_char(t[0int + 1]));
    assert(marker_then_digit(t));
    let rest = t.skip(2);
    assert(rest =~= d.skip(1));
    assert(0 <= digit_val(d[1]) < 2);
    assert(rest[0] == d[1]);
    assert(all_digits(rest, 2)) by {
        assert forall|i: int| 0 <= i < rest.len() implies 0 <= #[trigger] digit_val(rest[i]) < 2 by {
            assert(rest[i] == d[i + 1]);
        }
    }
    if d[0] == '0' {
        lemma_leading_zero(d);
    }
}

/// A `b`-marked token with no digit right after any `b` or `B` is no binary
/// literal: it resolves as a register letter, `b` being register 1.
pub proof fn lemma_marker_without_digit(t: Seq<char>)
    requires
        t.len() > 0,
        t[0] == 'b' || t[0] == 'B',
        !marker_then_digit(t),
    ensures
        resolve(t) == Some(1u16),
        resolve(t) == Some(letter_or_zero(t)),
{
    assert(!(0 <= digit_val(t[0]) < 10));
    assert(t.skip(0) =~= t);
}

/// A single letter resolves to its alphabet position, the same for both cases.
pub proof fn lemma_letter_token_resolves(c: char)
    requires
        'a' <= c && c <= 'z',
    ensures
        resolve(seq![c]) == Some((c as u32 - 'a' as u32) as u16),
        letter_index(c) == letter_index(((c as u32) - 32) as char),
        resolve(seq![((c as u32) - 32) as char]) == resolve(seq![c]),
{
    let u = ((c as u32) - 32) as char;
    assert(!(0 <= digit_val(c) < 10));
    assert(!(0 <= digit_val(u) < 10));
    assert(seq![c].skip(0) =~= seq![c]);
    assert(seq![u].skip(0) =~= seq![u]);
    assert(!marker_then_digit(seq![c]));
    assert(!marker_then_digit(seq![u]));
}

proof fn lemma_neg_mod(m: int)
    requires
        m >= 0,
    ensures
        (-m) % 0x10000 == (0x10000 - m % 0x10000) % 0x10000,
{
    let q = m / 0x10000;
    let r = m % 0x10000;
    assert(m == q * 0x10000 + r);
    assert(-m == (-q - 1) * 0x10000 + (0x10000 - r));
    if r == 0 {
        assert(-m == (-q) * 0x10000);
    }
}

} // verus!
