//! Reading decimal integers as Rust's `str::parse` does for `i32` and
//! `usize`: an optional sign, then one or more ASCII digits.
use vstd::prelude::*;

verus! {

pub open spec fn is_digit(c: char) -> bool {
    '0' <= c && c <= '9'
}

/// A non-empty run of ASCII digits.
pub open spec fn is_decimal(s: Seq<char>) -> bool {
    s.len() > 0 && forall|i: int| 0 <= i < s.len() ==> is_digit(#[trigger] s[i])
}

/// The value of a run of ASCII digits.
pub open spec fn decimal_value(s: Seq<char>) -> int
    decreases s.len(),
{
    if s.len() == 0 {
        0
    } else {
        decimal_value(s.drop_last()) * 10 + (s.last() as int - '0' as int)
    }
}

/// The integer that `s` writes: an optional `+` or `-`, then digits.
pub open spec fn signed_value(s: Seq<char>) -> Option<int> {
    if s.len() > 0 && s[0] == '-' && is_decimal(s.drop_first()) {
        Some(-decimal_value(s.drop_first()))
    } else if s.len() > 0 && s[0] == '+' && is_decimal(s.drop_first()) {
        Some(decimal_value(s.drop_first()))
    } else if is_decimal(s) {
        Some(decimal_value(s))
    } else {
        None
    }
}

/// The `i32` that `s` writes, if it writes one in range.
pub open spec fn i32_of(s: Seq<char>) -> Option<i32> {
    match signed_value(s) {
        Some(v) => if i32::MIN <= v <= i32::MAX {
            Some(v as i32)
        } else {
            None
        },
        None => None,
    }
}

/// The `usize` that `s` writes, if it writes one in range; a minus sign
/// is not accepted.
pub open spec fn usize_of(s: Seq<char>) -> Option<usize> {
    if s.len() > 0 && s[0] == '-' {
        None
    } else {
        match signed_value(s) {
            Some(v) => if v <= usize::MAX {
                Some(v as usize)
            } else {
                None
            },
            None => None,
        }
    }
}

proof fn lemma_decimal_nonneg(s: Seq<char>)
    requires
        forall|i: int| 0 <= i < s.len() ==> is_digit(#[trigger] s[i]),
    ensures
        decimal_value(s) >= 0,
    decreases s.len(),
{
    if s.len() > 0 {
        lemma_decimal_nonneg(s.drop_last());
    }
}

/// Reads the digits of `s` from index `from` on, as long as their value
/// stays within `limit`.
fn digits_from(s: &str, from: usize, limit: u64) -> (r: Option<u64>)
    requires
        from <= s@.len(),
    ensures
        match r {
            Some(v) => is_decimal(s@.subrange(from as int, s@.len() as int)) && v == decimal_value(
                s@.subrange(from as int, s@.len() as int),
            ) && v <= limit,
            None => !is_decimal(s@.subrange(from as int, s@.len() as int)) || decimal_value(
                s@.subrange(from as int, s@.len() as int),
            ) > limit,
        },
{
    let n = s.unicode_len();
    if from == n {
        return None;
    }
    let mut acc: u128 = 0;
    let mut over = false;
    let mut i: usize = from;
    proof {
        assert(s@.subrange(from as int, from as int) =~= Seq::<char>::empty());
    }
    while i < n
        invariant
            n == s@.len(),
            from <= i <= n,
            forall|k: int| from <= k < i ==> is_digit(#[trigger] s@[k]),
            !over ==> acc == decimal_value(s@.subrange(from as int, i as int)) && acc <= limit,
            over ==> decimal_value(s@.subrange(from as int, i as int)) > limit,
        decreases n - i,
    {
        let c = s.get_char(i);
        if !('0' <= c && c <= '9') {
            proof {
                assert(s@.subrange(from as int, n as int)[i - from] == c);
            }
            return None;
        }
        let ghost prev = s@.subrange(from as int, i as int);
        proof {
            assert(s@.subrange(from as int, i + 1).drop_last() =~= prev);
            assert(s@.subrange(from as int, i + 1).last() == c);
            assert forall|k: int| 0 <= k < prev.len() implies is_digit(#[trigger] prev[k]) by {
                assert(prev[k] == s@[from + k]);
            }
            lemma_decimal_nonneg(prev);
        }
        let d = (c as u32 - '0' as u32) as u128;
        if !over {
            acc = acc * 10 + d;
            if acc > limit as u128 {
                over = true;
            }
        } else {
            proof {
                let v = decimal_value(prev);
                assert(v * 10 + d >= v) by (nonlinear_arith)
                    requires
                        v >= 0,
                        d >= 0,
                ;
            }
        }
        i = i + 1;
    }
    proof {
        let t = s@.subrange(from as int, n as int);
        assert forall|k: int| 0 <= k < t.len() implies is_digit(#[trigger] t[k]) by {
            assert(t[k] == s@[from + k]);
        }
    }
    if over {
        None
    } else {
        Some(acc as u64)
    }
}

/// Parses `s` as an `i32`.
pub fn parse_i32(s: &str) -> (r: Option<i32>)
    ensures
        r == i32_of(s@),
{
    let n = s.unicode_len();
    if n == 0 {
        return None;
    }
    let c = s.get_char(0);
    proof {
        assert(s@.drop_first() =~= s@.subrange(1, n as int));
        assert(s@ =~= s@.subrange(0, n as int));
        assert(!is_digit('-') && !is_digit('+'));
        assert(s@[0] == c);
    }
    if c == '-' {
        match digits_from(s, 1, 2147483648) {
            Some(v) => {
                let w = v as i64;
                Some((-w) as i32)
            },
            None => None,
        }
    } else if c == '+' {
        match digits_from(s, 1, 2147483647) {
            Some(v) => Some(v as i32),
            None => None,
        }
    } else {
        match digits_from(s, 0, 2147483647) {
            Some(v) => Some(v as i32),
            None => None,
        }
    }
}

/// Parses `s` as a `usize`.
pub fn parse_usize(s: &str) -> (r: Option<usize>)
    ensures
        r == usize_of(s@),
{
    let n = s.unicode_len();
    if n == 0 {
        return None;
    }
    let c = s.get_char(0);
    proof {
        assert(s@.drop_first() =~= s@.subrange(1, n as int));
        assert(s@ =~= s@.subrange(0, n as int));
        assert(!is_digit('-') && !is_digit('+'));
        assert(s@[0] == c);
    }
    if c == '-' {
        None
    } else if c == '+' {
        match digits_from(s, 1, usize::MAX as u64) {
            Some(v) => Some(v as usize),
            None => None,
        }
    } else {
        match digits_from(s, 0, usize::MAX as u64) {
            Some(v) => Some(v as usize),
            None => None,
        }
    }
}

} // verus!
