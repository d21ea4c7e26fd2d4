use vstd::prelude::*;

verus! {

/// Zero-based alphabet position of an ASCII letter, upper or lower case.
pub open spec fn letter_index(c: char) -> Option<u8> {
    if 'a' <= c && c <= 'z' {
        Some((c as u32 - 'a' as u32) as u8)
    } else if 'A' <= c && c <= 'Z' {
        Some((c as u32 - 'A' as u32) as u8)
    } else {
        None
    }
}

/// Maps a register letter to its index: `a`/`A` to 0 through `z`/`Z` to 25.
pub fn letter_to_integer(letter: char) -> (r: Option<u8>)
    ensures
        r == letter_index(letter),
        r matches Some(n) ==> n < 26,
{
    if 'a' <= letter && letter <= 'z' {
        Some((letter as u32 - 'a' as u32) as u8)
    } else if 'A' <= letter && letter <= 'Z' {
        Some((letter as u32 - 'A' as u32) as u8)
    } else {
        None
    }
}

/// Lower-case register letter for an index below 26.
pub fn integer_to_letter(n: usize) -> (r: char)
    requires
        n < 26,
    ensures
        letter_index(r) == Some(n as u8),
        'a' <= r && r <= 'z',
{
    (n as u8 + 97u8) as char
}

/// ASCII decimal digit.
pub open spec fn is_digit(c: char) -> bool {
    '0' as u32 <= c as u32 && c as u32 <= '9' as u32
}

/// Some `b` or `B` in `s` is immediately followed by an ASCII digit.
pub open spec fn marker_then_digit(s: Seq<char>) -> bool {
    exists|i: int| 0 <= i < s.len() - 1 && (s[i] == 'b' || s[i] == 'B') && #[trigger] is_digit(s[i + 1])
}

/// Tells whether a `b` or `B` in the token is directly followed by a digit.
pub fn has_b_with_num(s: &str) -> (r: bool)
    ensures
        r == marker_then_digit(s@),
{
    let n = s.unicode_len();
    let mut found_b = false;
    let mut i: usize = 0;
    while i < n
        invariant
            n == s@.len(),
            0 <= i <= n,
            found_b == (i > 0 && (s@[i - 1] == 'b' || s@[i - 1] == 'B')),
            forall|j: int| 0 <= j < i as int - 1 ==> !((s@[j] == 'b' || s@[j] == 'B') && #[trigger] is_digit(s@[j + 1])),
        decreases n - i,
    {
        let c = s.get_char(i);
        if found_b && '0' as u32 <= c as u32 && c as u32 <= '9' as u32 {
            assert(is_digit(s@[(i - 1) + 1]));
            return true;
        }
        found_b = c == 'b' || c == 'B';
        i += 1;
    }
    false
}

/// Unicode white space, the set on which `str::split_whitespace` splits.
pub open spec fn is_white(c: char) -> bool {
    ('\u{9}' <= c && c <= '\u{d}') || c == ' ' || c == '\u{85}' || c == '\u{a0}' || c == '\u{1680}'
        || ('\u{2000}' <= c && c <= '\u{200a}') || c == '\u{2028}' || c == '\u{2029}' || c == '\u{202f}'
        || c == '\u{205f}' || c == '\u{3000}'
}

/// Executable form of `is_white`.
pub fn is_white_char(c: char) -> (r: bool)
    ensures
        r == is_white(c),
{
    ('\u{9}' <= c && c <= '\u{d}') || c == ' ' || c == '\u{85}' || c == '\u{a0}' || c == '\u{1680}'
        || ('\u{2000}' <= c && c <= '\u{200a}') || c == '\u{2028}' || c == '\u{2029}' || c == '\u{202f}'
        || c == '\u{205f}' || c == '\u{3000}'
}

} // verus!
