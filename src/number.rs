use vstd::prelude::*;

verus! {

/// Value of a digit character, counted from `'0'`.
pub open spec fn digit_val(c: char) -> int {
    (c as u32) as int - ('0' as u32) as int
}

/// Every character of `d` is a digit below `base`.
pub open spec fn all_digits(d: Seq<char>, base: int) -> bool {
    forall|i: int| 0 <= i < d.len() ==> 0 <= #[trigger] digit_val(d[i]) < base
}

/// Positional value of the digit string `d`, most significant digit first.
pub open spec fn digits_value(d: Seq<char>, base: int) -> int
    decreases d.len(),
{
    if d.len() == 0 {
        0
    } else {
        digits_value(d.drop_last(), base) * base + digit_val(d.last())
    }
}

/// What `str::parse::<u16>` accepts: an optional `+`, then decimal digits
/// whose value fits in 16 bits.
pub open spec fn decimal_u16(t: Seq<char>) -> Option<u16> {
    let d = if t.len() > 0 && t[0] == '+' { t.skip(1) } else { t };
    if d.len() > 0 && all_digits(d, 10) && digits_value(d, 10) <= 0xffff {
        Some(digits_value(d, 10) as u16)
    } else {
        None
    }
}

/// What `i32::from_str_radix(s, 2)` accepts: an optional sign, then binary
/// digits whose signed value fits in 32 bits.
pub open spec fn binary_i32(s: Seq<char>) -> Option<int> {
    if s.len() > 0 && s[0] == '-' {
        let d = s.skip(1);
        if d.len() > 0 && all_digits(d, 2) && digits_value(d, 2) <= 0x8000_0000 {
            Some(-digits_value(d, 2))
        } else {
            None
        }
    } else {
        let d = if s.len() > 0 && s[0] == '+' { s.skip(1) } else { s };
        if d.len() > 0 && all_digits(d, 2) && digits_value(d, 2) <= 0x7fff_ffff {
            Some(digits_value(d, 2))
        } else {
            None
        }
    }
}

pub proof fn lemma_digits_value_nonneg(d: Seq<char>, base: int)
    requires
        base >= 1,
        all_digits(d, base),
    ensures
        digits_value(d, base) >= 0,
    decreases d.len(),
{
    if d.len() > 0 {
        assert(all_digits(d.drop_last(), base)) by {
            assert forall|i: int| 0 <= i < d.drop_last().len() implies 0 <= #[trigger] digit_val(d.drop_last()[i]) < base by {
                assert(d.drop_last()[i] == d[i]);
            }
        }
        lemma_digits_value_nonneg(d.drop_last(), base);
        assert(0 <= digit_val(d[d.len() - 1]));
        assert(digits_value(d.drop_last(), base) * base >= 0) by (nonlinear_arith)
            requires digits_value(d.drop_last(), base) >= 0, base >= 1;
    }
}

/// A digit string is worth at least any of its prefixes.
pub proof fn lemma_digits_value_prefix(d: Seq<char>, base: int, k: int)
    requires
        base >= 1,
        all_digits(d, base),
        0 <= k <= d.len(),
    ensures
        digits_value(d, base) >= digits_value(d.take(k), base),
    decreases d.len(),
{
    if k == d.len() {
        assert(d.take(k) =~= d);
    } else {
        let p = d.drop_last();
        assert(all_digits(p, base)) by {
            assert forall|i: int| 0 <= i < p.len() implies 0 <= #[trigger] digit_val(p[i]) < base by {
                assert(p[i] == d[i]);
            }
        }
        assert(p.take(k) =~= d.take(k));
        lemma_digits_value_prefix(p, base, k);
        lemma_digits_value_nonneg(p, base);
        let v = digits_value(p, base);
        assert(0 <= digit_val(d[d.len() - 1]));
        assert(v * base >= v) by (nonlinear_arith)
            requires v >= 0, base >= 1;
    }
}

/// Reads the characters of `s` from index `start` on as digits in `base`.
/// Returns their value when there is at least one, all are digits below
/// `base`, and the value is at most `limit`.
pub fn parse_digits(s: &str, start: usize, base: u32, limit: u64) -> (r: Option<u64>)
    requires
        start <= s@.len(),
        2 <= base <= 10,
        limit <= 0x1_0000_0000,
    ensures
        ({
            let d = s@.skip(start as int);
            r == if d.len() > 0 && all_digits(d, base as int) && digits_value(d, base as int) <= limit {
                Some(digits_value(d, base as int) as u64)
            } else {
                None::<u64>
            }
        }),
        r matches Some(v) ==> v as int == digits_value(s@.skip(start as int), base as int),
{
    let ghost d = s@.skip(start as int);
    let n = s.unicode_len();
    if start == n {
        return None;
    }
    let mut acc: u64 = 0;
    let mut i: usize = start;
    while i < n
        invariant
            n == s@.len(),
            start < n,
            start <= i <= n,
            d == s@.skip(start as int),
            2 <= base <= 10,
            limit <= 0x1_0000_0000,
            acc <= limit,
            all_digits(d.take(i - start), base as int),
            acc == digits_value(d.take(i - start), base as int),
        decreases n - i,
    {
        let c = s.get_char(i);
        let k: Ghost<int> = Ghost(i - start);
        assert(d[k@] == c);
        if c < '0' || c as u32 >= '0' as u32 + base {
            proof {
                assert(!(0 <= digit_val(d[k@]) < base as int));
            }
            return None;
        }
        let dv: u64 = (c as u32 - '0' as u32) as u64;
        proof {
            let t1 = d.take(k@ + 1);
            assert(t1.drop_last() =~= d.take(k@));
            assert(t1.last() == c);
            assert forall|j: int| 0 <= j < t1.len() implies 0 <= #[trigger] digit_val(t1[j]) < base as int by {
                if j < k@ {
                    assert(t1[j] == d.take(k@)[j]);
                }
            }
        }
        assert(acc * (base as u64) <= 0x1_0000_0000 * 10) by (nonlinear_arith)
            requires acc <= 0x1_0000_0000, base <= 10;
        acc = acc * (base as u64) + dv;
        i += 1;
        if acc > limit {
            proof {
                if all_digits(d, base as int) {
                    lemma_digits_value_prefix(d, base as int, k@ + 1);
                }
            }
            return None;
        }
    }
    assert(d.take(n - start) =~= d);
    proof {
        lemma_digits_value_nonneg(d, base as int);
    }
    Some(acc)
}

} // verus!
