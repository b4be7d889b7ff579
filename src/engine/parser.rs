//! Parsing a regular expression into its syntax tree.
use vstd::prelude::*;

verus! {

/// Why an expression does not parse.
#[derive(Debug, Clone, Copy, PartialEq, Eq, Structural)]
pub enum ParseError {
    /// A backslash before a character that needs no escape: position and
    /// character.
    InvalidEscape(usize, char),
    /// Kept for callers matching on every kind of error; not produced.
    InvalidOr(usize, char),
    /// A closing parenthesis without an opening one.
    InvalidRightParen(usize),
    /// `+`, `*`, `?` or `|` with no expression before it.
    NoPrev(usize),
    /// Kept for callers matching on every kind of error; not produced.
    NoRightParen,
    /// The expression denotes nothing.
    Empty,
}

/// The syntax tree of a regular expression.
#[derive(Debug, PartialEq)]
pub enum AST {
    Char(char),
    Plus(Box<AST>),
    Star(Box<AST>),
    Question(Box<AST>),
    Or(Box<AST>, Box<AST>),
    Concat(Vec<AST>),
}

/// The mathematical form of a syntax tree.
pub enum Pattern {
    Char(char),
    Plus(Box<Pattern>),
    Star(Box<Pattern>),
    Question(Box<Pattern>),
    Or(Box<Pattern>, Box<Pattern>),
    Concat(Seq<Pattern>),
}

/// The tree `a` has the form `t`.
pub open spec fn represents(a: AST, t: Pattern) -> bool
    decreases t,
{
    match t {
        Pattern::Char(c) => a == AST::Char(c),
        Pattern::Plus(u) => a matches AST::Plus(b) && represents(*b, *u),
        Pattern::Star(u) => a matches AST::Star(b) && represents(*b, *u),
        Pattern::Question(u) => a matches AST::Question(b) && represents(*b, *u),
        Pattern::Or(u, w) => a matches AST::Or(b, d) && represents(*b, *u) && represents(*d, *w),
        Pattern::Concat(ts) => a matches AST::Concat(v) && v@.len() == ts.len() && forall|i: int|
            0 <= i < ts.len() ==> represents(#[trigger] v@[i], ts[i]),
    }
}

/// Each tree of `v` has the form at the same place in `ts`.
pub open spec fn represents_all(v: Seq<AST>, ts: Seq<Pattern>) -> bool {
    v.len() == ts.len() && forall|i: int| 0 <= i < ts.len() ==> represents(#[trigger] v[i], ts[i])
}

/// Alternatives joined by `|`, grouped from the right.
pub open spec fn fold_or(ts: Seq<Pattern>) -> Option<Pattern>
    decreases ts.len(),
{
    if ts.len() == 0 {
        None
    } else if ts.len() == 1 {
        Some(ts[0])
    } else {
        match fold_or(ts.drop_first()) {
            Some(rest) => Some(Pattern::Or(Box::new(ts[0]), Box::new(rest))),
            None => None,
        }
    }
}

/// The parser's state after a prefix of the expression: the sequence being
/// built, the alternatives before it, the enclosing groups, and whether a
/// backslash is pending.
pub struct PState {
    pub cur: Seq<Pattern>,
    pub alts: Seq<Pattern>,
    pub stack: Seq<(Seq<Pattern>, Seq<Pattern>)>,
    pub escape: bool,
}

pub open spec fn is_special(c: char) -> bool {
    c == '+' || c == '*' || c == '?' || c == '|' || c == '(' || c == ')' || c == '\\'
}

/// The alternatives with the pending sequence closed.
pub open spec fn closed_alts(st: PState) -> Seq<Pattern> {
    if st.cur.len() > 0 {
        st.alts.push(Pattern::Concat(st.cur))
    } else {
        st.alts
    }
}

/// The parser's step on the character `c` at position `i`.
pub open spec fn parse_step(st: PState, i: usize, c: char) -> Result<PState, ParseError> {
    if st.escape {
        if is_special(c) {
            Ok(PState { cur: st.cur.push(Pattern::Char(c)), escape: false, ..st })
        } else {
            Err(ParseError::InvalidEscape(i, c))
        }
    } else if c == '+' || c == '*' || c == '?' {
        if st.cur.len() == 0 {
            Err(ParseError::NoPrev(i))
        } else {
            let prev = Box::new(st.cur.last());
            let t = if c == '+' {
                Pattern::Plus(prev)
            } else if c == '*' {
                Pattern::Star(prev)
            } else {
                Pattern::Question(prev)
            };
            Ok(PState { cur: st.cur.drop_last().push(t), ..st })
        }
    } else if c == '(' {
        Ok(
            PState {
                cur: Seq::empty(),
                alts: Seq::empty(),
                stack: st.stack.push((st.cur, st.alts)),
                escape: false,
            },
        )
    } else if c == ')' {
        if st.stack.len() == 0 {
            Err(ParseError::InvalidRightParen(i))
        } else {
            let (prev, prev_or) = st.stack.last();
            let cur = match fold_or(closed_alts(st)) {
                Some(t) => prev.push(t),
                None => prev,
            };
            Ok(PState { cur, alts: prev_or, stack: st.stack.drop_last(), escape: false })
        }
    } else if c == '|' {
        if st.cur.len() == 0 {
            Err(ParseError::NoPrev(i))
        } else {
            Ok(PState { cur: Seq::empty(), alts: st.alts.push(Pattern::Concat(st.cur)), ..st })
        }
    } else if c == '\\' {
        Ok(PState { escape: true, ..st })
    } else {
        Ok(PState { cur: st.cur.push(Pattern::Char(c)), ..st })
    }
}

/// The parser's state after the first `k` characters of `s`.
pub open spec fn parse_run(s: Seq<char>, k: nat) -> Result<PState, ParseError>
    decreases k,
{
    if k == 0 {
        Ok(PState { cur: Seq::empty(), alts: Seq::empty(), stack: Seq::empty(), escape: false })
    } else {
        match parse_run(s, (k - 1) as nat) {
            Ok(st) => parse_step(st, (k - 1) as usize, s[k - 1]),
            Err(e) => Err(e),
        }
    }
}

/// Once the parser fails, it fails with the same error on every longer
/// prefix.
proof fn lemma_error_sticks(s: Seq<char>, k: nat, m: nat)
    requires
        k <= m,
        parse_run(s, k) is Err,
    ensures
        parse_run(s, m) == parse_run(s, k),
    decreases m - k,
{
    if k < m {
        lemma_error_sticks(s, k, (m - 1) as nat);
    }
}

/// What parsing `s` gives. A group left open at the end yields what
/// follows its opening parenthesis.
pub open spec fn parse_spec(s: Seq<char>) -> Result<Pattern, ParseError> {
    match parse_run(s, s.len()) {
        Ok(st) => match fold_or(closed_alts(st)) {
            Some(t) => Ok(t),
            None => Err(ParseError::Empty),
        },
        Err(e) => Err(e),
    }
}

/// The three postfix operators.
enum PSQ {
    Plus,
    Star,
    Question,
}

/// Applies a postfix operator to the last tree of `seq`; with no tree
/// before it the operator is an error.
fn parse_plus_star_question(seq: &mut Vec<AST>, ast_type: PSQ, pos: usize) -> (r: Result<(), ParseError>)
    ensures
        match r {
            Ok(()) => old(seq)@.len() > 0 && final(seq)@ == old(seq)@.drop_last().push(
                match ast_type {
                    PSQ::Plus => AST::Plus(Box::new(old(seq)@.last())),
                    PSQ::Star => AST::Star(Box::new(old(seq)@.last())),
                    PSQ::Question => AST::Question(Box::new(old(seq)@.last())),
                },
            ),
            Err(e) => old(seq)@.len() == 0 && e == ParseError::NoPrev(pos) && final(seq)@ == old(seq)@,
        },
{
    match seq.pop() {
        Some(prev) => {
            let ast = match ast_type {
                PSQ::Plus => AST::Plus(Box::new(prev)),
                PSQ::Star => AST::Star(Box::new(prev)),
                PSQ::Question => AST::Question(Box::new(prev)),
            };
            seq.push(ast);
            Ok(())
        },
        None => Err(ParseError::NoPrev(pos)),
    }
}

/// The character after a backslash: one of the operator characters stands
/// for itself; any other is an error.
fn parse_escape(pos: usize, c: char) -> (r: Result<AST, ParseError>)
    ensures
        is_special(c) ==> r == Ok::<AST, ParseError>(AST::Char(c)),
        !is_special(c) ==> r == Err::<AST, ParseError>(ParseError::InvalidEscape(pos, c)),
{
    match c {
        '+' | '*' | '?' | '|' | '(' | ')' | '\\' => Ok(AST::Char(c)),
        _ => Err(ParseError::InvalidEscape(pos, c)),
    }
}

/// Joins alternatives with `Or`, grouping from the right; a single one is
/// returned as it is, and none gives `None`.
fn foldr(seq_or: Vec<AST>, Ghost(ts): Ghost<Seq<Pattern>>) -> (r: Option<AST>)
    requires
        represents_all(seq_or@, ts),
    ensures
        match fold_or(ts) {
            Some(t) => r matches Some(a) && represents(a, t),
            None => r is None,
        },
{
    let mut seq_or = seq_or;
    let n = seq_or.len();
    if n == 0 {
        return None;
    }
    let mut ast = seq_or.pop().unwrap();
    proof {
        assert(ts.subrange(n - 1, n as int) =~= seq![ts[n - 1]]);
    }
    while seq_or.len() > 0
        invariant
            seq_or@.len() < n,
            n == ts.len(),
            forall|i: int| 0 <= i < seq_or@.len() ==> represents(#[trigger] seq_or@[i], ts[i]),
            fold_or(ts.subrange(seq_or@.len() as int, n as int)) matches Some(t) && represents(ast, t),
        decreases seq_or@.len(),
    {
        let k = seq_or.len() - 1;
        let s = seq_or.pop().unwrap();
        proof {
            let tail = ts.subrange(k as int, n as int);
            assert(tail.drop_first() =~= ts.subrange(k + 1, n as int));
            assert(tail[0] == ts[k as int]);
        }
        ast = AST::Or(Box::new(s), Box::new(ast));
    }
    proof {
        assert(ts.subrange(0, n as int) =~= ts);
    }
    Some(ast)
}

/// Each enclosing group of `stack` has the forms in `sts`.
pub open spec fn represents_stack(
    stack: Seq<(Vec<AST>, Vec<AST>)>,
    sts: Seq<(Seq<Pattern>, Seq<Pattern>)>,
) -> bool {
    &&& stack.len() == sts.len()
    &&& forall|k: int|
        0 <= k < sts.len() ==> represents_all((#[trigger] stack[k]).0@, sts[k].0)
            && represents_all(stack[k].1@, sts[k].1)
}

/// Parses a regular expression into its syntax tree.
///
/// Characters stand for themselves; `+`, `*` and `?` apply to the tree
/// before them, `|` separates alternatives, parentheses group, and a
/// backslash escapes one of these characters.
pub fn parse(expr: &str) -> (r: Result<AST, ParseError>)
    ensures
        match (r, parse_spec(expr@)) {
            (Ok(a), Ok(t)) => represents(a, t),
            (Err(e), Err(f)) => e == f,
            _ => false,
        },
{
    let n = expr.unicode_len();
    let mut seq: Vec<AST> = Vec::new();
    let mut seq_or: Vec<AST> = Vec::new();
    let mut stack: Vec<(Vec<AST>, Vec<AST>)> = Vec::new();
    let mut escape = false;
    let ghost mut st = PState {
        cur: Seq::empty(),
        alts: Seq::empty(),
        stack: Seq::empty(),
        escape: false,
    };
    let mut i: usize = 0;
    while i < n
        invariant
            n == expr@.len(),
            i <= n,
            parse_run(expr@, i as nat) == Ok::<PState, ParseError>(st),
            represents_all(seq@, st.cur),
            represents_all(seq_or@, st.alts),
            represents_stack(stack@, st.stack),
            escape == st.escape,
        decreases n - i,
    {
        let c = expr.get_char(i);
        let ghost next = parse_step(st, i, c);
        proof {
            assert(parse_run(expr@, (i + 1) as nat) == next);
            if next is Err {
                lemma_error_sticks(expr@, (i + 1) as nat, n as nat);
            }
        }
        if escape {
            match parse_escape(i, c) {
                Ok(ast) => seq.push(ast),
                Err(e) => return Err(e),
            }
            escape = false;
        } else if c == '+' || c == '*' || c == '?' {
            let kind = if c == '+' {
                PSQ::Plus
            } else if c == '*' {
                PSQ::Star
            } else {
                PSQ::Question
            };
            match parse_plus_star_question(&mut seq, kind, i) {
                Ok(()) => {},
                Err(e) => return Err(e),
            }
        } else if c == '(' {
            let prev = seq;
            let prev_or = seq_or;
            stack.push((prev, prev_or));
            seq = Vec::new();
            seq_or = Vec::new();
        } else if c == ')' {
            match stack.pop() {
                Some((prev, prev_or)) => {
                    let mut alts = seq_or;
                    if seq.len() > 0 {
                        alts.push(AST::Concat(seq));
                    }
                    let mut prev = prev;
                    match foldr(alts, Ghost(closed_alts(st))) {
                        Some(ast) => prev.push(ast),
                        None => {},
                    }
                    seq = prev;
                    seq_or = prev_or;
                },
                None => return Err(ParseError::InvalidRightParen(i)),
            }
        } else if c == '|' {
            if seq.len() == 0 {
                return Err(ParseError::NoPrev(i));
            }
            seq_or.push(AST::Concat(seq));
            seq = Vec::new();
        } else if c == '\\' {
            escape = true;
        } else {
            seq.push(AST::Char(c));
        }
        proof {
            st = next->Ok_0;
        }
        i = i + 1;
    }
    if seq.len() > 0 {
        seq_or.push(AST::Concat(seq));
    }
    match foldr(seq_or, Ghost(closed_alts(st))) {
        Some(ast) => Ok(ast),
        None => Err(ParseError::Empty),
    }
}

} // verus!
