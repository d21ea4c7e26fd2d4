use vstd::prelude::*;

use crate::helpers::{is_white, is_white_char};

verus! {

/// The pieces of `s` between `'\n'` characters, the last one included
/// even when empty.
pub open spec fn split_nl(s: Seq<char>) -> Seq<Seq<char>>
    decreases s.len(),
{
    if s.len() == 0 {
        seq![Seq::empty()]
    } else {
        let p = split_nl(s.drop_last());
        if s.last() == '\n' {
            p.push(Seq::empty())
        } else {
            p.update(p.len() - 1, p.last().push(s.last()))
        }
    }
}

/// The lines of a text, split at `'\n'`: a final empty piece (text that is
/// empty or ends in a newline) is not a line. A `'\r'` before the newline
/// stays in the line, where it counts as white space.
pub open spec fn lines(s: Seq<char>) -> Seq<Seq<char>> {
    let p = split_nl(s);
    if p.last().len() == 0 {
        p.drop_last()
    } else {
        p
    }
}

/// Index of the first `;` of a line, or its length when it has none.
pub open spec fn comment_pos(l: Seq<char>) -> nat
    decreases l.len(),
{
    if l.len() == 0 || l[0] == ';' {
        0
    } else {
        1 + comment_pos(l.skip(1))
    }
}

/// The maximal runs of non-white characters of `s`, in order.
pub open spec fn words(s: Seq<char>) -> Seq<Seq<char>>
    decreases s.len(),
{
    if s.len() == 0 {
        seq![]
    } else {
        let w = words(s.drop_last());
        let c = s.last();
        if is_white(c) {
            w
        } else if s.len() >= 2 && !is_white(s[s.len() - 2]) {
            w.update(w.len() - 1, w.last().push(c))
        } else {
            w.push(seq![c])
        }
    }
}

/// Tokens of one line: the words before its comment.
pub open spec fn line_tokens(l: Seq<char>) -> Seq<Seq<char>> {
    words(l.take(comment_pos(l) as int))
}

/// Token lists of a whole text, one per line, blank lines kept as empty lists.
pub open spec fn lex_spec(s: Seq<char>) -> Seq<Seq<Seq<char>>> {
    lines(s).map_values(|l: Seq<char>| line_tokens(l))
}

pub proof fn lemma_comment_pos(l: Seq<char>, k: int)
    requires
        0 <= k <= l.len(),
        k == l.len() || l[k] == ';',
        forall|j: int| 0 <= j < k ==> l[j] != ';',
    ensures
        comment_pos(l) == k,
    decreases k,
{
    if k > 0 {
        let t = l.skip(1);
        assert forall|j: int| 0 <= j < k - 1 implies t[j] != ';' by {
            assert(t[j] == l[j + 1]);
        }
        if k < l.len() {
            assert(t[k - 1] == l[k]);
        }
        lemma_comment_pos(t, k - 1);
    }
}

/// Position of the first `;` in `line`, or its length.
fn find_comment(line: &str) -> (r: usize)
    ensures
        r == comment_pos(line@),
        r <= line@.len(),
{
    let n = line.unicode_len();
    let mut i: usize = 0;
    while i < n
        invariant
            n == line@.len(),
            i <= n,
            forall|j: int| 0 <= j < i ==> line@[j] != ';',
        decreases n - i,
    {
        if line.get_char(i) == ';' {
            proof {
                lemma_comment_pos(line@, i as int);
            }
            return i;
        }
        i += 1;
    }
    proof {
        lemma_comment_pos(line@, n as int);
    }
    n
}

/// The words of the first `end` characters of `line`.
fn split_words(line: &str, end: usize) -> (r: Vec<String>)
    requires
        end <= line@.len(),
    ensures
        r.deep_view() == words(line@.take(end as int)),
{
    let ghost l = line@;
    let mut toks: Vec<String> = Vec::new();
    let mut start: usize = 0;
    let mut in_word = false;
    let mut i: usize = 0;
    while i < end
        invariant
            l == line@,
            end <= l.len(),
            i <= end,
            in_word == (i > 0 && !is_white(l[i - 1])),
            in_word ==> start < i,
            in_word ==> words(l.take(i as int)) == toks.deep_view().push(l.subrange(start as int, i as int)),
            !in_word ==> words(l.take(i as int)) == toks.deep_view(),
        decreases end - i,
    {
        let c = line.get_char(i);
        let ghost t1 = l.take(i + 1);
        assert(t1.drop_last() =~= l.take(i as int));
        assert(t1.last() == c);
        if is_white_char(c) {
            if in_word {
                let w = line.substring_char(start, i).to_owned();
                let ghost before = toks@;
                toks.push(w);
                assert(toks.deep_view() =~= before.map_values(|x: String| x@).push(w@)) by {
                    assert(toks@ == before.push(w));
                }
            }
            in_word = false;
        } else {
            if in_word {
                assert(t1[i as int - 1] == l[i - 1]);
                assert(l.subrange(start as int, i as int).push(c) =~= l.subrange(start as int, i + 1));
            } else {
                if i > 0 {
                    assert(t1[i as int - 1] == l[i - 1]);
                }
                assert(seq![c] =~= l.subrange(i as int, i + 1));
                start = i;
            }
            in_word = true;
        }
        i += 1;
    }
    if in_word {
        let w = line.substring_char(start, end).to_owned();
        let ghost before = toks@;
        toks.push(w);
        assert(toks.deep_view() =~= before.map_values(|x: String| x@).push(w@)) by {
            assert(toks@ == before.push(w));
        }
        assert(l.take(end as int).drop_last() =~= l.take(end - 1));
    }
    toks
}

/// Tokens of one line of text: comment cut off, split on white space.
fn tokens_of_line(line: &str) -> (r: Vec<String>)
    ensures
        r.deep_view() == line_tokens(line@),
{
    let k = find_comment(line);
    split_words(line, k)
}

/// Splits a program text into per-line token lists. A `;` starts a comment
/// that runs to the end of its line; tokens are separated by white space.
/// Blank and comment-only lines give empty lists, so list `i` is line `i`.
pub fn lex(input: &str) -> (r: Vec<Vec<String>>)
    ensures
        r.deep_view() == lex_spec(input@),
{
    let ghost s = input@;
    let n = input.unicode_len();
    let mut out: Vec<Vec<String>> = Vec::new();
    let ghost mut done: Seq<Seq<char>> = Seq::empty();
    let mut start: usize = 0;
    let mut i: usize = 0;
    assert(s.take(0) =~= Seq::<char>::empty());
    assert(s.subrange(0, 0) =~= Seq::<char>::empty());
    while i < n
        invariant
            s == input@,
            n == s.len(),
            start <= i <= n,
            split_nl(s.take(i as int)) == done.push(s.subrange(start as int, i as int)),
            out.deep_view() == done.map_values(|l: Seq<char>| line_tokens(l)),
        decreases n - i,
    {
        let c = input.get_char(i);
        let ghost t1 = s.take(i + 1);
        assert(t1.drop_last() =~= s.take(i as int));
        assert(t1.last() == c);
        if c == '\n' {
            let line = input.substring_char(start, i);
            let toks = tokens_of_line(line);
            let ghost before = out@;
            out.push(toks);
            proof {
                let cur = s.subrange(start as int, i as int);
                assert(out@ == before.push(toks));
                assert(before.len() == done.len()) by {
                    assert(before.map_values(|x: Vec<String>| x.deep_view()).len() == done.map_values(|l: Seq<char>| line_tokens(l)).len());
                }
                assert(out.deep_view() =~= done.push(cur).map_values(|l: Seq<char>| line_tokens(l))) by {
                    assert forall|j: int| 0 <= j < done.len() implies out.deep_view()[j] == line_tokens(done[j]) by {
                        assert(out@[j] == before[j]);
                        assert(before.map_values(|x: Vec<String>| x.deep_view())[j] == done.map_values(|l: Seq<char>| line_tokens(l))[j]);
                    }
                }
                done = done.push(cur);
                assert(Seq::<char>::empty() =~= s.subrange(i + 1, i + 1));
            }
            start = i + 1;
        } else {
            proof {
                assert(s.subrange(start as int, i as int).push(c) =~= s.subrange(start as int, i + 1));
            }
        }
        i += 1;
    }
    assert(s.take(n as int) =~= s);
    if start < n {
        let line = input.substring_char(start, n);
        let toks = tokens_of_line(line);
        let ghost before = out@;
        out.push(toks);
        proof {
            let cur = s.subrange(start as int, n as int);
            assert(out@ == before.push(toks));
            assert(before.len() == done.len()) by {
                assert(before.map_values(|x: Vec<String>| x.deep_view()).len() == done.map_values(|l: Seq<char>| line_tokens(l)).len());
            }
            assert(out.deep_view() =~= done.push(cur).map_values(|l: Seq<char>| line_tokens(l))) by {
                assert forall|j: int| 0 <= j < done.len() implies out.deep_view()[j] == line_tokens(done[j]) by {
                    assert(out@[j] == before[j]);
                    assert(before.map_values(|x: Vec<String>| x.deep_view())[j] == done.map_values(|l: Seq<char>| line_tokens(l))[j]);
                }
            }
            assert(split_nl(s).drop_last() =~= done);
        }
    } else {
        proof {
            assert(split_nl(s).drop_last() =~= done);
        }
    }
    out
}

} // verus!

