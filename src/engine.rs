//! A regular-expression engine: parsing, then matching at the start of an
//! input.
mod evaluator;
mod parser;

pub use evaluator::matches_at;
pub use parser::{parse, parse_spec, ParseError, Pattern, AST};
use parser::represents;
use vstd::prelude::*;

verus! {

/// `m` is the longest prefix of `s` that `t` matches, or empty when `t`
/// matches no prefix.
pub open spec fn is_longest_match(t: Pattern, s: Seq<char>, m: Seq<char>) -> bool {
    if exists|j: int| matches_at(t, s, 0, j) {
        &&& m == s.take(m.len() as int)
        &&& matches_at(t, s, 0, m.len() as int)
        &&& forall|j: int| matches_at(t, s, 0, j) ==> j <= m.len()
    } else {
        m.len() == 0
    }
}

/// Matches `expr` at the start of `input` and returns the longest matched
/// prefix; the empty string when no prefix matches. `is_depth` names the
/// order of a backtracking search (depth first, else breadth first); the
/// prefixes matched, and so the result, are the same either way.
pub fn do_matching(expr: &str, input: &str, is_depth: bool) -> (r: Result<String, ParseError>)
    ensures
        match (r, parse_spec(expr@)) {
            (Ok(m), Ok(t)) => is_longest_match(t, input@, m@),
            (Err(e), Err(f)) => e == f,
            _ => false,
        },
{
    let ast = match parse(expr) {
        Ok(a) => a,
        Err(e) => return Err(e),
    };
    let ghost t = parse_spec(expr@)->Ok_0;
    assert(represents(ast, t));
    let n = input.unicode_len();
    let mut start: Vec<bool> = Vec::new();
    start.push(true);
    let mut i: usize = 0;
    while i < n
        invariant
            parse_spec(expr@) == Ok::<Pattern, ParseError>(t),
            represents(ast, t),
            i <= n,
            start@.len() == i + 1,
            start@[0],
            forall|k: int| 1 <= k < start@.len() ==> !#[trigger] start@[k],
        decreases n - i,
    {
        start.push(false);
        i = i + 1;
    }
    assert(start@.len() == n + 1);
    let ends = evaluator::ends(&ast, input, &start, Ghost(t));
    proof {
        assert forall|j: int| 0 <= j <= n implies #[trigger] ends@[j] == matches_at(t, input@, 0, j) by {
            if matches_at(t, input@, 0, j) {
                assert(start@[0]);
            }
        }
    }
    let mut j: usize = start.len();
    while j > 0
        invariant
            parse_spec(expr@) == Ok::<Pattern, ParseError>(t),
            j <= n + 1,
            n == input@.len(),
            ends@.len() == n + 1,
            forall|k: int| j <= k <= n ==> !#[trigger] ends@[k],
            forall|k: int| 0 <= k <= n ==> #[trigger] ends@[k] == matches_at(t, input@, 0, k),
        decreases j,
    {
        if ends[j - 1] {
            let m = input.substring_char(0, j - 1).to_owned();
            proof {
                assert(m@ =~= input@.take(j - 1));
                assert(matches_at(t, input@, 0, j - 1));
                assert(m@.len() == j - 1);
                assert forall|k: int| matches_at(t, input@, 0, k) implies k <= j - 1 by {
                    if k > j - 1 {
                        assert(!ends@[k]);
                    }
                }
                assert(exists|k: int| matches_at(t, input@, 0, k));
                assert(is_longest_match(t, input@, m@));
            }
            return Ok(m);
        }
        j = j - 1;
    }
    proof {
        assert forall|k: int| !matches_at(t, input@, 0, k) by {
            if 0 <= k <= n {
                assert(!ends@[k]);
            }
        }
    }
    Ok(String::new())
}

} // verus!
