use vstd::prelude::*;

use crate::instruction::Instruction;
use crate::lexer::{lex, lex_spec};
use crate::parser::{decode, parse_instruction, Fault, ParseError};

verus! {

/// An assembled program: the global instruction list, ending in one
/// `HALT`, and the function blocks by name, each name once.
#[derive(Debug)]
pub struct Program {
    pub instructions: Vec<Instruction>,
    pub functions: Vec<(String, Vec<Instruction>)>,
}

impl Program {
    /// Instructions of the function block named `name` (directive marker
    /// included), if there is one.
    pub fn function(&self, name: &str) -> (r: Option<&Vec<Instruction>>)
        ensures
            match r {
                Some(b) => exists|i: int|
                    0 <= i < self.functions@.len() && (#[trigger] self.functions@[i]).0@ == name@
                        && self.functions@[i].1 == *b,
                None => forall|i: int|
                    0 <= i < self.functions@.len() ==> (#[trigger] self.functions@[i]).0@ != name@,
            },
    {
        let mut i: usize = 0;
        while i < self.functions.len()
            invariant
                i <= self.functions@.len(),
                forall|j: int| 0 <= j < i ==> (#[trigger] self.functions@[j]).0@ != name@,
            decreases self.functions.len() - i,
        {
            if same_text(self.functions[i].0.as_str(), name) {
                return Some(&self.functions[i].1);
            }
            i += 1;
        }
        None
    }
}

/// A function table seen as names and instruction sequences.
pub type FunctionTable = Seq<(Seq<char>, Seq<Instruction>)>;

/// Mathematical form of a `Program`.
pub struct ProgramModel {
    pub global: Seq<Instruction>,
    pub functions: FunctionTable,
}

pub open spec fn table_view(f: Seq<(String, Vec<Instruction>)>) -> FunctionTable {
    f.map_values(|p: (String, Vec<Instruction>)| (p.0@, p.1@))
}

impl View for Program {
    type V = ProgramModel;

    open spec fn view(&self) -> ProgramModel {
        ProgramModel { global: self.instructions@, functions: table_view(self.functions@) }
    }
}

/// No name appears twice in the table.
pub open spec fn names_unique(f: FunctionTable) -> bool {
    forall|i: int, j: int| 0 <= i < j < f.len() ==> #[trigger] f[i].0 != #[trigger] f[j].0
}

/// The table with `name` bound to `body`: an existing entry of that name is
/// replaced in place, otherwise the entry is added at the end.
pub open spec fn upsert(f: FunctionTable, name: Seq<char>, body: Seq<Instruction>) -> FunctionTable {
    if exists|i: int| 0 <= i < f.len() && f[i].0 == name {
        let i = choose|i: int| 0 <= i < f.len() && f[i].0 == name;
        f.update(i, (name, body))
    } else {
        f.push((name, body))
    }
}

/// Where the assembler stands after some lines: global list so far,
/// sealed blocks, the open block's name and its instructions so far.
pub struct AsmState {
    pub global: Seq<Instruction>,
    pub functions: FunctionTable,
    pub open: Option<Seq<char>>,
    pub body: Seq<Instruction>,
}

pub open spec fn start_state() -> AsmState {
    AsmState { global: seq![], functions: seq![], open: None, body: seq![] }
}

/// A token that starts with `.` is a block directive.
pub open spec fn is_directive(t: Seq<char>) -> bool {
    t.len() > 0 && t[0] == '.'
}

/// Effect of one token line, numbered `line` from 0.
pub open spec fn line_step(st: AsmState, toks: Seq<Seq<char>>, line: nat) -> Result<AsmState, Fault> {
    if toks.len() == 0 {
        Ok(st)
    } else if is_directive(toks[0]) {
        if toks[0] == ".end"@ {
            match st.open {
                Some(name) => Ok(
                    AsmState {
                        global: st.global,
                        functions: upsert(st.functions, name, st.body),
                        open: None,
                        body: seq![],
                    },
                ),
                None => Err(Fault::EndWithoutBlock { line }),
            }
        } else if st.open is None {
            Ok(AsmState { global: st.global, functions: st.functions, open: Some(toks[0]), body: seq![] })
        } else {
            Err(Fault::NestedBlock { line })
        }
    } else {
        match decode(toks, line) {
            Err(e) => Err(e),
            Ok(i) => if st.open is Some {
                Ok(AsmState { global: st.global, functions: st.functions, open: st.open, body: st.body.push(i) })
            } else {
                Ok(AsmState { global: st.global.push(i), functions: st.functions, open: st.open, body: st.body })
            },
        }
    }
}

/// State after the first `n` lines, or the first fault among them.
pub open spec fn assemble_prefix(ls: Seq<Seq<Seq<char>>>, n: nat) -> Result<AsmState, Fault>
    decreases n,
{
    if n == 0 {
        Ok(start_state())
    } else {
        match assemble_prefix(ls, (n - 1) as nat) {
            Err(e) => Err(e),
            Ok(st) => line_step(st, ls[n - 1], (n - 1) as nat),
        }
    }
}

/// Once a fault has occurred, later lines do not change it.
proof fn lemma_fault_sticks(ls: Seq<Seq<Seq<char>>>, n: nat, m: nat)
    requires
        n <= m,
        assemble_prefix(ls, n) is Err,
    ensures
        assemble_prefix(ls, m) == assemble_prefix(ls, n),
    decreases m - n,
{
    if m > n {
        lemma_fault_sticks(ls, n, (m - 1) as nat);
    }
}

/// The program that token lines assemble to: a block still open at the end
/// is a fault; otherwise `HALT` is appended to the global list.
pub open spec fn assemble(ls: Seq<Seq<Seq<char>>>) -> Result<ProgramModel, Fault> {
    match assemble_prefix(ls, ls.len()) {
        Err(e) => Err(e),
        Ok(st) => match st.open {
            Some(name) => Err(Fault::UnterminatedBlock { name }),
            None => Ok(ProgramModel { global: st.global.push(Instruction::HALT), functions: st.functions }),
        },
    }
}

/// A block that is still open when the lines run out makes the whole
/// parse fail, naming that block; no program comes out.
pub proof fn lemma_unterminated_block_fails(ls: Seq<Seq<Seq<char>>>)
    requires
        assemble_prefix(ls, ls.len()) matches Ok(st) && st.open is Some,
    ensures
        assemble(ls) == Err::<ProgramModel, Fault>(
            Fault::UnterminatedBlock { name: assemble_prefix(ls, ls.len())->Ok_0.open->Some_0 },
        ),
{
}

/// From a line that leaves a block open, the block stays open (or a fault
/// occurs) through every later line that is not `.end`.
proof fn lemma_block_stays_open(ls: Seq<Seq<Seq<char>>>, k: nat, m: nat)
    requires
        k < m <= ls.len(),
        assemble_prefix(ls, k + 1) matches Ok(st) ==> st.open is Some,
        forall|j: int| k < j < ls.len() ==> (#[trigger] ls[j]).len() == 0 || ls[j][0] != ".end"@,
    ensures
        assemble_prefix(ls, m) matches Ok(st) ==> st.open is Some,
    decreases m - k,
{
    if m > k + 1 {
        lemma_block_stays_open(ls, k, (m - 1) as nat);
        let j = m - 1;
        assert(ls[j].len() == 0 || ls[j][0] != ".end"@);
    }
}

/// A block directive on line `k` with no `.end` line after it makes the
/// parse fail, whatever the other lines hold: with an unterminated-block
/// fault when no other fault comes first.
pub proof fn lemma_open_block_without_end_fails(ls: Seq<Seq<Seq<char>>>, k: nat)
    requires
        k < ls.len(),
        ls[k as int].len() > 0,
        is_directive(ls[k as int][0]),
        ls[k as int][0] != ".end"@,
        forall|j: int| k < j < ls.len() ==> (#[trigger] ls[j]).len() == 0 || ls[j][0] != ".end"@,
    ensures
        assemble(ls) is Err,
        assemble_prefix(ls, ls.len()) is Ok ==> assemble(ls) == Err::<ProgramModel, Fault>(
            Fault::UnterminatedBlock { name: assemble_prefix(ls, ls.len())->Ok_0.open->Some_0 },
        ),
{
    lemma_block_stays_open(ls, k, ls.len());
}

/// Every assembled program ends in exactly one appended `HALT`, after the
/// decoded global instructions.
pub proof fn lemma_program_ends_in_halt(ls: Seq<Seq<Seq<char>>>)
    requires
        assemble(ls) is Ok,
    ensures
        assemble(ls)->Ok_0.global.last() == Instruction::HALT,
        assemble(ls)->Ok_0.global.drop_last() == assemble_prefix(ls, ls.len())->Ok_0.global,
{
    let st = assemble_prefix(ls, ls.len())->Ok_0;
    assert(st.global.push(Instruction::HALT).drop_last() =~= st.global);
}

/// The program that a source text assembles to.
pub open spec fn parse_spec(text: Seq<char>) -> Result<ProgramModel, Fault> {
    assemble(lex_spec(text))
}

/// Exact comparison of two texts.
fn same_text(a: &str, b: &str) -> (r: bool)
    ensures
        r == (a@ == b@),
{
    let n = a.unicode_len();
    if n != b.unicode_len() {
        return false;
    }
    let mut i: usize = 0;
    while i < n
        invariant
            n == a@.len(),
            n == b@.len(),
            i <= n,
            forall|j: int| 0 <= j < i ==> a@[j] == b@[j],
        decreases n - i,
    {
        if a.get_char(i) != b.get_char(i) {
            return false;
        }
        i += 1;
    }
    assert(a@ =~= b@);
    true
}

/// Binds `name` to `body` in the table, as `upsert` says.
fn store_function(functions: &mut Vec<(String, Vec<Instruction>)>, name: String, body: Vec<Instruction>)
    requires
        names_unique(table_view(old(functions)@)),
    ensures
        names_unique(table_view(final(functions)@)),
        table_view(final(functions)@) == upsert(table_view(old(functions)@), name@, body@),
{
    let ghost f = table_view(functions@);
    let mut i: usize = 0;
    while i < functions.len()
        invariant
            f == table_view(functions@),
            functions@ == old(functions)@,
            names_unique(f),
            i <= functions.len(),
            forall|j: int| 0 <= j < i ==> f[j].0 != name@,
        decreases functions.len() - i,
    {
        if functions[i].0 == name {
            assert(f[i as int].0 == name@);
            assert(exists|k: int| 0 <= k < f.len() && f[k].0 == name@);
            let ghost k = choose|k: int| 0 <= k < f.len() && f[k].0 == name@;
            assert(k == i) by {
                if k != i {
                    if k < i {
                        assert(f[k].0 != name@);
                    } else {
                        assert(f[i as int].0 != f[k].0);
                    }
                }
            }
            functions.set(i, (name, body));
            proof {
                assert(table_view(functions@) =~= f.update(i as int, (name@, body@)));
                assert(upsert(f, name@, body@) == f.update(k, (name@, body@)));
                let g = table_view(functions@);
                assert forall|a: int, b: int| 0 <= a < b < g.len() implies #[trigger] g[a].0 != #[trigger] g[b].0 by {
                    if a != i && b != i {
                        assert(g[a] == f[a] && g[b] == f[b]);
                    } else if a == i {
                        assert(g[b] == f[b]);
                    } else {
                        assert(g[a] == f[a]);
                    }
                }
            }
            return;
        }
        i += 1;
    }
    functions.push((name, body));
    proof {
        assert(table_view(functions@) =~= f.push((name@, body@)));
        let g = table_view(functions@);
        assert forall|a: int, b: int| 0 <= a < b < g.len() implies #[trigger] g[a].0 != #[trigger] g[b].0 by {
            if b < f.len() {
                assert(g[a] == f[a] && g[b] == f[b]);
            } else {
                assert(g[a] == f[a]);
            }
        }
    }
}

/// Name of the open block as a character sequence.
pub open spec fn open_view(o: Option<String>) -> Option<Seq<char>> {
    match o {
        Some(s) => Some(s@),
        None => None,
    }
}

/// Tells whether a token is a block directive.
fn starts_with_dot(t: &String) -> (r: bool)
    ensures
        r == is_directive(t@),
{
    let s = t.as_str();
    s.unicode_len() > 0 && s.get_char(0) == '.'
}

/// Assembles a program text: lexes it, decodes each instruction line, and
/// groups the lines between a `.name` directive and `.end` into the function
/// block `.name`. Everything else goes to the global list, which gets a
/// final `HALT`. The first fault stops the parse: a malformed binary
/// literal, an unknown opcode, `.end` with no open block, a nested block
/// directive, or a block left open at the end of the text.
pub fn parse_file(f_contents: String) -> (r: Result<Program, ParseError>)
    ensures
        match r {
            Ok(p) => parse_spec(f_contents@) == Ok::<ProgramModel, Fault>(p@),
            Err(e) => parse_spec(f_contents@) == Err::<ProgramModel, Fault>(e@),
        },
        r matches Ok(p) ==> names_unique(p@.functions),
{
    let tokens = lex(f_contents.as_str());
    let ghost ls = tokens.deep_view();
    let mut instructions: Vec<Instruction> = Vec::new();
    let mut functions: Vec<(String, Vec<Instruction>)> = Vec::new();
    let mut open: Option<String> = None;
    let mut body: Vec<Instruction> = Vec::new();
    let mut line: usize = 0;
    assert(table_view(functions@) =~= Seq::empty());
    assert(instructions@ =~= Seq::empty());
    while line < tokens.len()
        invariant
            ls == tokens.deep_view(),
            ls == lex_spec(f_contents@),
            line <= tokens.len(),
            names_unique(table_view(functions@)),
            open is None ==> body@ == Seq::<Instruction>::empty(),
            assemble_prefix(ls, line as nat) == Ok::<AsmState, Fault>(
                AsmState {
                    global: instructions@,
                    functions: table_view(functions@),
                    open: open_view(open),
                    body: body@,
                },
            ),
        decreases tokens.len() - line,
    {
        let toks = &tokens[line];
        assert(ls[line as int] == toks.deep_view());
        let ghost st = AsmState {
            global: instructions@,
            functions: table_view(functions@),
            open: open_view(open),
            body: body@,
        };
        if toks.len() == 0 {
        } else {
            assert(ls[line as int][0] == toks[0]@);
            if starts_with_dot(&toks[0]) {
                if same_text(toks[0].as_str(), ".end") {
                    let cur = open;
                    open = None;
                    match cur {
                        Some(name) => {
                            let sealed = body;
                            body = Vec::new();
                            store_function(&mut functions, name, sealed);
                            assert(body@ =~= Seq::empty());
                        },
                        None => {
                            proof {
                                lemma_fault_sticks(ls, (line + 1) as nat, ls.len());
                            }
                            return Err(ParseError::EndWithoutBlock { line });
                        },
                    }
                } else if open.is_none() {
                    open = Some(toks[0].clone());
                } else {
                    proof {
                        lemma_fault_sticks(ls, (line + 1) as nat, ls.len());
                    }
                    return Err(ParseError::NestedBlock { line });
                }
            } else {
                match parse_instruction(toks, line) {
                    Ok(ins) => {
                        if open.is_some() {
                            body.push(ins);
                        } else {
                            instructions.push(ins);
                        }
                    },
                    Err(e) => {
                        proof {
                            lemma_fault_sticks(ls, (line + 1) as nat, ls.len());
                        }
                        return Err(e);
                    },
                }
            }
        }
        line += 1;
    }
    match open {
        Some(name) => Err(ParseError::UnterminatedBlock { name }),
        None => {
            instructions.push(Instruction::HALT);
            Ok(Program { instructions, functions })
        },
    }
}

} // verus!
