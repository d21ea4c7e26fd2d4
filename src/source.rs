use vstd::prelude::*;

use crate::encode::{
    encodable, encode, encode_tokens, join, join_line_strings, join_lines, lemma_decode_tokens, lemma_encode_lexes,
    lemma_encoded_line, lemma_join_chars, lemma_split_join, lemma_words_join, one_line, plain_word,
};
use crate::helpers::is_white;
use crate::instruction::Instruction;
use crate::lexer::{comment_pos, lemma_comment_pos, lex_spec, line_tokens, lines, words};
use crate::parser::{decode, Fault};
use crate::program::{
    assemble, assemble_prefix, is_directive, line_step, names_unique, parse_spec, start_state, upsert, AsmState,
    FunctionTable, Program, ProgramModel,
};

verus! {

/// Token lines of one function block: its directive, its instructions, `.end`.
pub open spec fn block_tokens(name: Seq<char>, body: Seq<Instruction>) -> Seq<Seq<Seq<char>>> {
    seq![seq![name]] + body.map_values(|i: Instruction| encode_tokens(i)) + seq![seq![".end"@]]
}

/// Token lines of all function blocks, in table order.
pub open spec fn blocks_tokens(f: FunctionTable) -> Seq<Seq<Seq<char>>>
    decreases f.len(),
{
    if f.len() == 0 {
        seq![]
    } else {
        blocks_tokens(f.drop_last()) + block_tokens(f.last().0, f.last().1)
    }
}

/// Token lines of a program: the global instructions but the final `HALT`
/// that the assembler adds back, then each function block.
pub open spec fn source_tokens(p: ProgramModel) -> Seq<Seq<Seq<char>>> {
    p.global.drop_last().map_values(|i: Instruction| encode_tokens(i)) + blocks_tokens(p.functions)
}

/// A name that the assembler reads as a block directive.
pub open spec fn block_name(n: Seq<char>) -> bool {
    is_directive(n) && n != ".end"@ && crate::encode::plain_word(n)
}

/// A program that has a source form: it ends in `HALT`, its blocks have
/// distinct directive names, and every `POW` exponent fits in 16 bits.
pub open spec fn writable(p: ProgramModel) -> bool {
    &&& p.global.len() > 0
    &&& p.global.last() == Instruction::HALT
    &&& forall|i: int| 0 <= i < p.global.len() ==> encodable(#[trigger] p.global[i])
    &&& names_unique(p.functions)
    &&& forall|k: int| 0 <= k < p.functions.len() ==> block_name((#[trigger] p.functions[k]).0)
    &&& forall|k: int, i: int|
        0 <= k < p.functions.len() && 0 <= i < p.functions[k].1.len() ==> encodable(
            #[trigger] p.functions[k].1[i],
        )
}

proof fn lemma_prefix_agree(a: Seq<Seq<Seq<char>>>, b: Seq<Seq<Seq<char>>>, n: nat)
    requires
        n <= a.len(),
        n <= b.len(),
        forall|i: int| 0 <= i < n ==> a[i] == b[i],
    ensures
        assemble_prefix(a, n) == assemble_prefix(b, n),
    decreases n,
{
    if n > 0 {
        lemma_prefix_agree(a, b, (n - 1) as nat);
        assert(a[n - 1] == b[n - 1]);
    }
}

proof fn lemma_globals(ls: Seq<Seq<Seq<char>>>, list: Seq<Instruction>, k: nat)
    requires
        k <= list.len(),
        list.len() <= ls.len(),
        forall|i: int| 0 <= i < list.len() ==> encodable(#[trigger] list[i]),
        forall|i: int| 0 <= i < list.len() ==> #[trigger] ls[i] == encode_tokens(list[i]),
    ensures
        assemble_prefix(ls, k) == Ok::<AsmState, Fault>(
            AsmState { global: list.take(k as int), functions: seq![], open: None, body: seq![] },
        ),
    decreases k,
{
    if k == 0 {
        assert(list.take(0) =~= Seq::<Instruction>::empty());
    } else {
        lemma_globals(ls, list, (k - 1) as nat);
        let ins = list[k - 1];
        assert(encodable(ins));
        assert(ls[k - 1] == encode_tokens(ins));
        lemma_encoded_line(ins);
        lemma_decode_tokens(ins, (k - 1) as nat);
        assert(list.take(k - 1).push(ins) =~= list.take(k as int));
    }
}

proof fn lemma_block_body(
    ls: Seq<Seq<Seq<char>>>,
    s0: nat,
    st: AsmState,
    name: Seq<char>,
    body: Seq<Instruction>,
    i: nat,
)
    requires
        assemble_prefix(ls, s0) == Ok::<AsmState, Fault>(st),
        st.open is None,
        s0 + body.len() + 2 <= ls.len(),
        ls[s0 as int] == seq![name],
        block_name(name),
        forall|j: int| 0 <= j < body.len() ==> encodable(#[trigger] body[j]),
        forall|j: int| 0 <= j < body.len() ==> #[trigger] ls[s0 + 1 + j] == encode_tokens(body[j]),
        i <= body.len(),
    ensures
        assemble_prefix(ls, s0 + 1 + i) == Ok::<AsmState, Fault>(
            AsmState { global: st.global, functions: st.functions, open: Some(name), body: body.take(i as int) },
        ),
    decreases i,
{
    reveal_strlit(".end");
    if i == 0 {
        assert(body.take(0) =~= Seq::<Instruction>::empty());
        assert(seq![name][0] == name);
    } else {
        lemma_block_body(ls, s0, st, name, body, (i - 1) as nat);
        let ins = body[i - 1];
        assert(encodable(ins));
        assert(ls[s0 + 1 + (i - 1)] == encode_tokens(ins));
        lemma_encoded_line(ins);
        lemma_decode_tokens(ins, (s0 + i) as nat);
        assert(body.take(i - 1).push(ins) =~= body.take(i as int));
    }
}

proof fn lemma_upsert_new(f: FunctionTable, name: Seq<char>, body: Seq<Instruction>)
    requires
        forall|i: int| 0 <= i < f.len() ==> (#[trigger] f[i]).0 != name,
    ensures
        upsert(f, name, body) == f.push((name, body)),
{
}

proof fn lemma_blocks(g: Seq<Instruction>, f: FunctionTable)
    requires
        forall|i: int| 0 <= i < g.len() ==> encodable(#[trigger] g[i]),
        names_unique(f),
        forall|k: int| 0 <= k < f.len() ==> block_name((#[trigger] f[k]).0),
        forall|k: int, i: int| 0 <= k < f.len() && 0 <= i < f[k].1.len() ==> encodable(#[trigger] f[k].1[i]),
    ensures
        ({
            let ls = g.map_values(|i: Instruction| encode_tokens(i)) + blocks_tokens(f);
            assemble_prefix(ls, ls.len()) == Ok::<AsmState, Fault>(
                AsmState { global: g, functions: f, open: None, body: seq![] },
            )
        }),
    decreases f.len(),
{
    let gt = g.map_values(|i: Instruction| encode_tokens(i));
    let ls = gt + blocks_tokens(f);
    if f.len() == 0 {
        assert(ls =~= gt);
        lemma_globals(ls, g, g.len());
        assert(g.take(g.len() as int) =~= g);
        assert(f =~= Seq::<(Seq<char>, Seq<Instruction>)>::empty());
    } else {
        let fp = f.drop_last();
        let name = f.last().0;
        let body = f.last().1;
        assert forall|a: int, b: int| 0 <= a < b < fp.len() implies #[trigger] fp[a].0 != #[trigger] fp[b].0 by {
            assert(fp[a] == f[a] && fp[b] == f[b]);
        }
        assert forall|k: int| 0 <= k < fp.len() implies block_name((#[trigger] fp[k]).0) by {
            assert(fp[k] == f[k]);
        }
        assert forall|k: int, i: int| 0 <= k < fp.len() && 0 <= i < fp[k].1.len() implies encodable(
            #[trigger] fp[k].1[i],
        ) by {
            assert(fp[k] == f[k]);
        }
        lemma_blocks(g, fp);
        let lp = gt + blocks_tokens(fp);
        let bt = block_tokens(name, body);
        assert(ls =~= lp + bt);
        lemma_prefix_agree(lp, ls, lp.len());
        let st = AsmState { global: g, functions: fp, open: None, body: seq![] };
        let s0 = lp.len();
        assert(block_name(f[f.len() - 1].0));
        assert forall|j: int| 0 <= j < body.len() implies encodable(#[trigger] body[j]) by {
            assert(encodable(f[f.len() - 1].1[j]));
        }
        assert(ls[s0 as int] == seq![name]) by {
            assert(ls[s0 as int] == bt[0]);
        }
        assert forall|j: int| 0 <= j < body.len() implies #[trigger] ls[s0 + 1 + j] == encode_tokens(body[j]) by {
            assert(ls[s0 + 1 + j] == bt[1 + j]);
        }
        lemma_block_body(ls, s0, st, name, body, body.len());
        assert(body.take(body.len() as int) =~= body);
        let e: int = (s0 + body.len() + 1) as int;
        assert(ls[e] == seq![".end"@]) by {
            assert(ls[e] == bt[body.len() + 1int]);
        }
        reveal_strlit(".end");
        assert(is_directive(".end"@));
        assert forall|i: int| 0 <= i < fp.len() implies (#[trigger] fp[i]).0 != name by {
            assert(fp[i] == f[i]);
            assert(f[i].0 != f[f.len() - 1].0);
        }
        lemma_upsert_new(fp, name, body);
        assert(fp.push((name, body)) =~= f);
        assert(ls.len() == e + 1);
    }
}

/// Assembling the token lines of a writable program gives that program back.
pub proof fn lemma_source_tokens_assemble(p: ProgramModel)
    requires
        writable(p),
    ensures
        assemble(source_tokens(p)) == Ok::<ProgramModel, Fault>(p),
{
    let g = p.global.drop_last();
    assert forall|i: int| 0 <= i < g.len() implies encodable(#[trigger] g[i]) by {
        assert(g[i] == p.global[i]);
    }
    lemma_blocks(g, p.functions);
    assert(g.push(Instruction::HALT) =~= p.global);
}

/// Source text of a program: each token line joined by spaces, the lines
/// joined by newlines.
pub open spec fn program_source(p: ProgramModel) -> Seq<char> {
    join_lines(source_tokens(p).map_values(|ws: Seq<Seq<char>>| join(ws)))
}

proof fn lemma_push_line(before: Seq<String>, x: String, w: Seq<Seq<Seq<char>>>, ws: Seq<Seq<char>>)
    requires
        Seq::new(before.len(), |i: int| before[i].deep_view()) == w.map_values(|l: Seq<Seq<char>>| join(l)),
        x@ == join(ws),
    ensures
        ({
            let after = before.push(x);
            Seq::new(after.len(), |i: int| after[i].deep_view()) == w.push(ws).map_values(|l: Seq<Seq<char>>| join(l))
        }),
{
    let after = before.push(x);
    let old_v = Seq::new(before.len(), |i: int| before[i].deep_view());
    assert(old_v.len() == w.len());
    let nv = Seq::new(after.len(), |i: int| after[i].deep_view());
    let target = w.push(ws).map_values(|l: Seq<Seq<char>>| join(l));
    assert forall|t: int| 0 <= t < nv.len() implies nv[t] == target[t] by {
        if t < before.len() {
            assert(after[t] == before[t]);
            assert(old_v[t] == w.map_values(|l: Seq<Seq<char>>| join(l))[t]);
        }
    }
    assert(nv =~= target);
}

/// Source text of a program: its global instructions but the final one
/// (the `HALT` that parsing adds back), then each function block as its
/// directive line, its instruction lines and `.end`, one line each.
pub fn encode_source(p: &Program) -> (r: String)
    requires
        p.instructions.len() > 0,
    ensures
        r@ == program_source(p@),
{
    let ghost pv = p@;
    let ghost mut want: Seq<Seq<Seq<char>>> = seq![];
    let mut out: Vec<String> = Vec::new();
    let mut i: usize = 0;
    let ng = p.instructions.len() - 1;
    while i < ng
        invariant
            pv == p@,
            ng == p.instructions.len() - 1,
            i <= ng,
            want == pv.global.drop_last().take(i as int).map_values(|x: Instruction| encode_tokens(x)),
            out.deep_view() == want.map_values(|ws: Seq<Seq<char>>| join(ws)),
        decreases ng - i,
    {
        let line = encode(p.instructions[i]);
        let ghost before = out@;
        out.push(line);
        proof {
            let ins = pv.global.drop_last()[i as int];
            assert(ins == p.instructions@[i as int]);
            lemma_push_line(before, line, want, encode_tokens(ins));
            want = want.push(encode_tokens(ins));
            assert(pv.global.drop_last().take(i + 1) =~= pv.global.drop_last().take(i as int).push(ins));
            assert(want =~= pv.global.drop_last().take(i + 1).map_values(|x: Instruction| encode_tokens(x)));
            assert(out@ == before.push(line));
        }
        i += 1;
    }
    assert(pv.global.drop_last().take(ng as int) =~= pv.global.drop_last());
    let ghost gt = want;
    let mut k: usize = 0;
    assert(pv.functions.take(0) =~= Seq::<(Seq<char>, Seq<Instruction>)>::empty());
    assert(want =~= gt + blocks_tokens(pv.functions.take(0)));
    while k < p.functions.len()
        invariant
            pv == p@,
            k <= p.functions.len(),
            want == gt + blocks_tokens(pv.functions.take(k as int)),
            out.deep_view() == want.map_values(|ws: Seq<Seq<char>>| join(ws)),
        decreases p.functions.len() - k,
    {
        let ghost start = want;
        let ghost name = pv.functions[k as int].0;
        let ghost body = pv.functions[k as int].1;
        assert(name == p.functions@[k as int].0@);
        assert(body == p.functions@[k as int].1@);
        let nl = p.functions[k].0.clone();
        let ghost before = out@;
        out.push(nl);
        proof {
            assert(join(seq![name]) == name);
            lemma_push_line(before, nl, want, seq![name]);
            want = want.push(seq![name]);
            assert(out@ == before.push(nl));
        }
        let mut j: usize = 0;
        while j < p.functions[k].1.len()
            invariant
                pv == p@,
                k < p.functions.len(),
                body == pv.functions[k as int].1,
                j <= body.len(),
                want == start + seq![seq![name]] + body.take(j as int).map_values(|x: Instruction| encode_tokens(x)),
                out.deep_view() == want.map_values(|ws: Seq<Seq<char>>| join(ws)),
            decreases body.len() - j,
        {
            let line = encode(p.functions[k].1[j]);
            let ghost before2 = out@;
            out.push(line);
            proof {
                let ins = body[j as int];
                assert(ins == p.functions@[k as int].1@[j as int]);
                assert(body.take(j + 1) =~= body.take(j as int).push(ins));
                lemma_push_line(before2, line, want, encode_tokens(ins));
                want = want.push(encode_tokens(ins));
                assert(want =~= start + seq![seq![name]] + body.take(j + 1).map_values(|x: Instruction| encode_tokens(x)));
                assert(out@ == before2.push(line));
            }
            j += 1;
        }
        let e = String::from_str(".end");
        let ghost before3 = out@;
        out.push(e);
        proof {
            assert(join(seq![".end"@]) == ".end"@);
            lemma_push_line(before3, e, want, seq![".end"@]);
            want = want.push(seq![".end"@]);
            assert(out@ == before3.push(e));
            assert(body.take(body.len() as int) =~= body);
            let f1 = pv.functions.take(k + 1);
            assert(f1.drop_last() =~= pv.functions.take(k as int));
            assert(f1.last() == (name, body));
            assert(want =~= gt + blocks_tokens(f1));
        }
        k += 1;
    }
    assert(pv.functions.take(p.functions.len() as int) =~= pv.functions);
    assert(want =~= source_tokens(pv));
    join_line_strings(&out)
}

/// A token line that prints and reads back: not empty, all words plain.
pub open spec fn line_ok(ws: Seq<Seq<char>>) -> bool {
    ws.len() > 0 && forall|k: int| 0 <= k < ws.len() ==> plain_word(#[trigger] ws[k])
}

proof fn lemma_line_text(ws: Seq<Seq<char>>)
    requires
        line_ok(ws),
    ensures
        line_tokens(join(ws)) == ws,
        one_line(join(ws)),
        join(ws).len() > 0,
{
    let t = join(ws);
    lemma_words_join(ws);
    lemma_comment_pos(t, t.len() as int);
    assert(t.take(t.len() as int) =~= t);
    assert forall|i: int| 0 <= i < t.len() implies #[trigger] t[i] != '\n' by {
        lemma_join_chars(ws, i);
    }
    if t.len() == 0 {
        assert(words(t) =~= Seq::<Seq<char>>::empty());
    }
}

proof fn lemma_blocks_ok(f: FunctionTable)
    requires
        forall|k: int| 0 <= k < f.len() ==> block_name((#[trigger] f[k]).0),
    ensures
        forall|i: int| 0 <= i < blocks_tokens(f).len() ==> line_ok(#[trigger] blocks_tokens(f)[i]),
    decreases f.len(),
{
    if f.len() > 0 {
        let fp = f.drop_last();
        assert forall|k: int| 0 <= k < fp.len() implies block_name((#[trigger] fp[k]).0) by {
            assert(fp[k] == f[k]);
        }
        lemma_blocks_ok(fp);
        let name = f.last().0;
        let body = f.last().1;
        assert(block_name(f[f.len() - 1].0));
        let bt = block_tokens(name, body);
        reveal_strlit(".end");
        assert forall|i: int| 0 <= i < bt.len() implies line_ok(#[trigger] bt[i]) by {
            if i == 0 {
                assert(bt[i] == seq![name]);
            } else if i == bt.len() - 1 {
                assert(bt[i] == seq![".end"@]);
                assert(plain_word(".end"@));
            } else {
                assert(bt[i] == encode_tokens(body[i - 1]));
                lemma_encode_lexes(body[i - 1]);
                lemma_encoded_line(body[i - 1]);
            }
        }
        let all = blocks_tokens(f);
        let bp = blocks_tokens(fp);
        assert forall|i: int| 0 <= i < all.len() implies line_ok(#[trigger] all[i]) by {
            if i < bp.len() {
                assert(all[i] == bp[i]);
            } else {
                assert(all[i] == bt[i - bp.len()]);
            }
        }
    }
}

/// Parsing the source text of a program, written line by line (global
/// instructions, then each block between its directive and `.end`), gives
/// that program back: the same global list and the same function blocks.
pub proof fn lemma_source_round_trip(p: ProgramModel)
    requires
        writable(p),
    ensures
        parse_spec(program_source(p)) == Ok::<ProgramModel, Fault>(p),
{
    let tl = source_tokens(p);
    let ls = tl.map_values(|ws: Seq<Seq<char>>| join(ws));
    let g = p.global.drop_last();
    let gt = g.map_values(|i: Instruction| encode_tokens(i));
    lemma_blocks_ok(p.functions);
    assert forall|i: int| 0 <= i < tl.len() implies line_ok(#[trigger] tl[i]) by {
        if i < gt.len() {
            assert(tl[i] == encode_tokens(g[i]));
            lemma_encode_lexes(g[i]);
            lemma_encoded_line(g[i]);
        } else {
            assert(tl[i] == blocks_tokens(p.functions)[i - gt.len()]);
        }
    }
    let text = program_source(p);
    if tl.len() == 0 {
        assert(ls =~= Seq::<Seq<char>>::empty());
        assert(text =~= Seq::<char>::empty());
        assert(lines(text) =~= Seq::<Seq<char>>::empty());
        assert(lex_spec(text) =~= tl);
    } else {
        assert forall|i: int| 0 <= i < ls.len() implies one_line(#[trigger] ls[i]) by {
            lemma_line_text(tl[i]);
        }
        lemma_split_join(ls);
        lemma_line_text(tl[tl.len() - 1]);
        assert(lines(text) == ls);
        assert forall|i: int| 0 <= i < tl.len() implies #[trigger] lex_spec(text)[i] == tl[i] by {
            lemma_line_text(tl[i]);
        }
        assert(lex_spec(text) =~= tl);
    }
    lemma_source_tokens_assemble(p);
}

proof fn lemma_words_plain(s: Seq<char>)
    requires
        forall|i: int| 0 <= i < s.len() ==> #[trigger] s[i] != ';',
    ensures
        forall|k: int| 0 <= k < words(s).len() ==> plain_word(#[trigger] words(s)[k]),
        s.len() > 0 && !is_white(s.last()) ==> words(s).len() > 0,
    decreases s.len(),
{
    if s.len() > 0 {
        let p = s.drop_last();
        assert forall|i: int| 0 <= i < p.len() implies #[trigger] p[i] != ';' by {
            assert(p[i] == s[i]);
        }
        lemma_words_plain(p);
        let w = words(p);
        let c = s.last();
        assert(c == s[s.len() - 1]);
        if !is_white(c) {
            if s.len() >= 2 && !is_white(s[s.len() - 2]) {
                assert(p.last() == s[s.len() - 2]);
                let nw = w.last().push(c);
                assert(plain_word(w[w.len() - 1]));
                assert forall|j: int| 0 <= j < nw.len() implies !is_white(#[trigger] nw[j]) && nw[j] != ';' by {
                    if j < w.last().len() {
                        assert(nw[j] == w.last()[j]);
                    }
                }
                assert forall|k: int| 0 <= k < words(s).len() implies plain_word(#[trigger] words(s)[k]) by {
                    if k < w.len() - 1 {
                        assert(words(s)[k] == w[k]);
                    } else {
                        assert(words(s)[k] == nw);
                    }
                }
            } else {
                assert forall|k: int| 0 <= k < words(s).len() implies plain_word(#[trigger] words(s)[k]) by {
                    if k < w.len() {
                        assert(words(s)[k] == w[k]);
                    } else {
                        assert(words(s)[k] == seq![c]);
                    }
                }
            }
        }
    }
}

proof fn lemma_cut_no_semicolon(l: Seq<char>)
    ensures
        comment_pos(l) <= l.len(),
        forall|j: int| 0 <= j < comment_pos(l) ==> l[j] != ';',
    decreases l.len(),
{
    if !(l.len() == 0 || l[0] == ';') {
        let t = l.skip(1);
        lemma_cut_no_semicolon(t);
        assert forall|j: int| 0 <= j < comment_pos(l) implies l[j] != ';' by {
            if j > 0 {
                assert(l[j] == t[j - 1]);
            }
        }
    }
}

/// Every token that the lexer produces is a plain word.
proof fn lemma_lex_plain(text: Seq<char>, i: int, k: int)
    requires
        0 <= i < lex_spec(text).len(),
        0 <= k < lex_spec(text)[i].len(),
    ensures
        plain_word(lex_spec(text)[i][k]),
{
    let l = lines(text)[i];
    lemma_cut_no_semicolon(l);
    let c = l.take(comment_pos(l) as int);
    assert forall|j: int| 0 <= j < c.len() implies #[trigger] c[j] != ';' by {
        assert(c[j] == l[j]);
    }
    lemma_words_plain(c);
}

/// Assembler states whose parts all have a source form.
pub open spec fn state_ok(st: AsmState) -> bool {
    &&& forall|i: int| 0 <= i < st.global.len() ==> encodable(#[trigger] st.global[i])
    &&& forall|i: int| 0 <= i < st.body.len() ==> encodable(#[trigger] st.body[i])
    &&& names_unique(st.functions)
    &&& forall|k: int| 0 <= k < st.functions.len() ==> block_name((#[trigger] st.functions[k]).0)
    &&& forall|k: int, i: int|
        0 <= k < st.functions.len() && 0 <= i < st.functions[k].1.len() ==> encodable(
            #[trigger] st.functions[k].1[i],
        )
    &&& st.open matches Some(n) ==> block_name(n)
}

proof fn lemma_upsert_ok(f: FunctionTable, name: Seq<char>, body: Seq<Instruction>)
    requires
        names_unique(f),
        forall|k: int| 0 <= k < f.len() ==> block_name((#[trigger] f[k]).0),
        forall|k: int, i: int| 0 <= k < f.len() && 0 <= i < f[k].1.len() ==> encodable(#[trigger] f[k].1[i]),
        block_name(name),
        forall|i: int| 0 <= i < body.len() ==> encodable(#[trigger] body[i]),
    ensures
        ({
            let g = upsert(f, name, body);
            &&& names_unique(g)
            &&& forall|k: int| 0 <= k < g.len() ==> block_name((#[trigger] g[k]).0)
            &&& forall|k: int, i: int| 0 <= k < g.len() && 0 <= i < g[k].1.len() ==> encodable(#[trigger] g[k].1[i])
        }),
{
    let g = upsert(f, name, body);
    if exists|i: int| 0 <= i < f.len() && f[i].0 == name {
        let x = choose|i: int| 0 <= i < f.len() && f[i].0 == name;
        assert(g == f.update(x, (name, body)));
        assert forall|a: int, b: int| 0 <= a < b < g.len() implies #[trigger] g[a].0 != #[trigger] g[b].0 by {
            assert(g[a].0 == f[a].0 && g[b].0 == f[b].0);
        }
        assert forall|k: int, i: int| 0 <= k < g.len() && 0 <= i < g[k].1.len() implies encodable(#[trigger] g[k].1[i]) by {
            if k != x {
                assert(g[k] == f[k]);
            }
        }
    } else {
        assert(g == f.push((name, body)));
        assert forall|a: int, b: int| 0 <= a < b < g.len() implies #[trigger] g[a].0 != #[trigger] g[b].0 by {
            if b < f.len() {
                assert(g[a] == f[a] && g[b] == f[b]);
            } else {
                assert(g[a] == f[a]);
            }
        }
        assert forall|k: int, i: int| 0 <= k < g.len() && 0 <= i < g[k].1.len() implies encodable(#[trigger] g[k].1[i]) by {
            if k < f.len() {
                assert(g[k] == f[k]);
            }
        }
        assert forall|k: int| 0 <= k < g.len() implies block_name((#[trigger] g[k]).0) by {
            if k < f.len() {
                assert(g[k] == f[k]);
            }
        }
    }
}

proof fn lemma_prefix_ok(text: Seq<char>, n: nat)
    requires
        n <= lex_spec(text).len(),
    ensures
        assemble_prefix(lex_spec(text), n) matches Ok(st) ==> state_ok(st),
    decreases n,
{
    let ls = lex_spec(text);
    if n == 0 {
        assert(start_state().functions =~= Seq::<(Seq<char>, Seq<Instruction>)>::empty());
    } else {
        lemma_prefix_ok(text, (n - 1) as nat);
        if let Ok(st) = assemble_prefix(ls, (n - 1) as nat) {
            let toks = ls[n - 1];
            if toks.len() > 0 {
                lemma_lex_plain(text, n - 1, 0);
                if let Ok(st2) = line_step(st, toks, (n - 1) as nat) {
                    if is_directive(toks[0]) {
                        if toks[0] == ".end"@ {
                            lemma_upsert_ok(st.functions, st.open->Some_0, st.body);
                        }
                    } else {
                        let ins = decode(toks, (n - 1) as nat)->Ok_0;
                        assert(encodable(ins));
                        assert forall|i: int| 0 <= i < st2.global.len() implies encodable(#[trigger] st2.global[i]) by {
                            if i < st.global.len() {
                                assert(st2.global[i] == st.global[i]);
                            }
                        }
                        assert forall|i: int| 0 <= i < st2.body.len() implies encodable(#[trigger] st2.body[i]) by {
                            if i < st.body.len() {
                                assert(st2.body[i] == st.body[i]);
                            }
                        }
                    }
                }
            }
        }
    }
}

/// Every program that parsing produces has a source form.
pub proof fn lemma_parsed_writable(text: Seq<char>)
    requires
        parse_spec(text) is Ok,
    ensures
        writable(parse_spec(text)->Ok_0),
{
    let ls = lex_spec(text);
    lemma_prefix_ok(text, ls.len());
    let st = assemble_prefix(ls, ls.len())->Ok_0;
    let g = st.global.push(Instruction::HALT);
    assert forall|i: int| 0 <= i < g.len() implies encodable(#[trigger] g[i]) by {
        if i < st.global.len() {
            assert(g[i] == st.global[i]);
        }
    }
}

/// Writing out a parsed program and parsing the text again gives the same
/// program: the same global list and the same function blocks.
pub proof fn lemma_parse_write_parse(text: Seq<char>)
    requires
        parse_spec(text) is Ok,
    ensures
        parse_spec(program_source(parse_spec(text)->Ok_0)) == parse_spec(text),
{
    lemma_parsed_writable(text);
    lemma_source_round_trip(parse_spec(text)->Ok_0);
}

} // verus!
