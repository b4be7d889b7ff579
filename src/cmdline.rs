//! Splitting an input line into a pipeline of commands.
use vstd::prelude::*;

verus! {

/// One command of a pipeline: the program and its full argument vector,
/// the program name included.
pub struct Stage {
    pub program: String,
    pub args: Vec<String>,
}

/// Why a line is not a runnable pipeline.
#[derive(Debug, Clone, Copy, PartialEq, Eq, Structural)]
pub enum CmdError {
    /// A segment of the line holds no word.
    Empty,
    /// More than two pipeline segments.
    TooManyStages,
}

/// The characters that separate words (Unicode `White_Space`).
pub open spec fn is_space(c: char) -> bool {
    ('\u{9}' <= c && c <= '\u{d}') || c == ' ' || c == '\u{85}' || c == '\u{a0}'
        || c == '\u{1680}' || ('\u{2000}' <= c && c <= '\u{200a}') || c == '\u{2028}'
        || c == '\u{2029}' || c == '\u{202f}' || c == '\u{205f}' || c == '\u{3000}'
}

/// The segments of `s` between pipe characters, empty ones included.
pub open spec fn pipe_segments(s: Seq<char>) -> Seq<Seq<char>>
    decreases s.len(),
{
    if s.len() == 0 {
        seq![Seq::<char>::empty()]
    } else {
        let prev = pipe_segments(s.drop_last());
        if s.last() == '|' {
            prev.push(Seq::<char>::empty())
        } else {
            prev.update(prev.len() - 1, prev.last().push(s.last()))
        }
    }
}

/// A line has at least one segment.
pub proof fn lemma_segments_nonempty(s: Seq<char>)
    ensures
        pipe_segments(s).len() >= 1,
    decreases s.len(),
{
    if s.len() > 0 {
        lemma_segments_nonempty(s.drop_last());
    }
}

/// The words of `s`: its maximal runs of non-space characters, in order.
pub open spec fn words(s: Seq<char>) -> Seq<Seq<char>>
    decreases s.len(),
{
    if s.len() == 0 {
        Seq::<Seq<char>>::empty()
    } else {
        let prev = words(s.drop_last());
        if is_space(s.last()) {
            prev
        } else if s.len() >= 2 && !is_space(s[s.len() - 2]) {
            prev.update(prev.len() - 1, prev.last().push(s.last()))
        } else {
            prev.push(seq![s.last()])
        }
    }
}

/// The strings of `v` as character sequences.
pub open spec fn strings_view(v: Seq<String>) -> Seq<Seq<char>> {
    v.map_values(|t: String| t@)
}

/// `st` is the command written by the segment `seg`.
pub open spec fn stage_of(st: Stage, seg: Seq<char>) -> bool {
    &&& words(seg).len() > 0
    &&& st.program@ == words(seg)[0]
    &&& strings_view(st.args@) == words(seg)
}

/// The error that `parse_cmd` reports for `s`, if any.
pub open spec fn cmd_error(s: Seq<char>) -> Option<CmdError> {
    let segs = pipe_segments(s);
    if segs.len() > 2 {
        Some(CmdError::TooManyStages)
    } else if exists|i: int| 0 <= i < segs.len() && words(#[trigger] segs[i]).len() == 0 {
        Some(CmdError::Empty)
    } else {
        None
    }
}

fn is_space_char(c: char) -> (r: bool)
    ensures
        r == is_space(c),
{
    ('\u{9}' <= c && c <= '\u{d}') || c == ' ' || c == '\u{85}' || c == '\u{a0}'
        || c == '\u{1680}' || ('\u{2000}' <= c && c <= '\u{200a}') || c == '\u{2028}'
        || c == '\u{2029}' || c == '\u{202f}' || c == '\u{205f}' || c == '\u{3000}'
}

/// Splits `line` at each pipe character.
pub fn parse_pipe(line: &str) -> (r: Vec<String>)
    ensures
        strings_view(r@) == pipe_segments(line@),
{
    let n = line.unicode_len();
    let mut out: Vec<String> = Vec::new();
    let mut start: usize = 0;
    let mut i: usize = 0;
    proof {
        assert(line@.take(0) =~= Seq::<char>::empty());
        assert(strings_view(out@).push(line@.subrange(0, 0)) =~= seq![Seq::<char>::empty()]);
    }
    while i < n
        invariant
            n == line@.len(),
            start <= i <= n,
            strings_view(out@).push(line@.subrange(start as int, i as int))
                == pipe_segments(line@.take(i as int)),
        decreases n - i,
    {
        let c = line.get_char(i);
        proof {
            assert(line@.take(i + 1).drop_last() == line@.take(i as int));
            assert(line@.take(i + 1).last() == c);
        }
        if c == '|' {
            let seg = line.substring_char(start, i).to_owned();
            out.push(seg);
            start = i + 1;
            proof {
                assert(strings_view(out@) == strings_view(out@).drop_last().push(seg@));
                assert(line@.subrange(start as int, i + 1) == Seq::<char>::empty());
            }
        } else {
            proof {
                assert(line@.subrange(start as int, i + 1)
                    == line@.subrange(start as int, i as int).push(c));
            }
        }
        i = i + 1;
    }
    let seg = line.substring_char(start, n).to_owned();
    out.push(seg);
    proof {
        assert(line@.take(n as int) == line@);
        assert(strings_view(out@) == strings_view(out@).drop_last().push(seg@));
    }
    out
}

/// Splits one pipeline segment into words; the first word is the program.
pub fn parse_cmd_one(seg: &str) -> (r: Result<Stage, CmdError>)
    ensures
        match r {
            Ok(st) => stage_of(st, seg@),
            Err(e) => e == CmdError::Empty && words(seg@).len() == 0,
        },
{
    let n = seg.unicode_len();
    let mut args: Vec<String> = Vec::new();
    let mut start: usize = 0;
    let mut in_word = false;
    let mut i: usize = 0;
    proof {
        assert(seg@.take(0) =~= Seq::<char>::empty());
    }
    while i < n
        invariant
            n == seg@.len(),
            start <= i <= n,
            in_word <==> (i > 0 && !is_space(seg@[i - 1])),
            in_word ==> forall|k: int| start <= k < i ==> !is_space(#[trigger] seg@[k]),
            in_word ==> start == 0 || is_space(seg@[start - 1]),
            !in_word ==> strings_view(args@) == words(seg@.take(i as int)),
            in_word ==> strings_view(args@).push(seg@.subrange(start as int, i as int))
                == words(seg@.take(i as int)),
        decreases n - i,
    {
        let c = seg.get_char(i);
        let ghost pre = seg@.take(i as int);
        proof {
            assert(seg@.take(i + 1).drop_last() == pre);
            assert(seg@.take(i + 1).last() == c);
            if i > 0 {
                assert(seg@.take(i + 1)[i - 1] == seg@[i - 1]);
            }
        }
        if is_space_char(c) {
            if in_word {
                let w = seg.substring_char(start, i).to_owned();
                args.push(w);
                proof {
                    assert(strings_view(args@) =~= strings_view(args@).drop_last().push(w@));
                }
            }
            in_word = false;
        } else {
            if !in_word {
                start = i;
                in_word = true;
                proof {
                    assert(seg@.subrange(start as int, i + 1) =~= seq![c]);
                }
            } else {
                proof {
                    assert(seg@.subrange(start as int, i + 1)
                        =~= seg@.subrange(start as int, i as int).push(c));
                }
            }
        }
        i = i + 1;
    }
    if in_word {
        let w = seg.substring_char(start, n).to_owned();
        args.push(w);
        proof {
            assert(strings_view(args@) =~= strings_view(args@).drop_last().push(w@));
        }
    }
    proof {
        assert(seg@.take(n as int) == seg@);
    }
    if args.len() == 0 {
        return Err(CmdError::Empty);
    }
    let program = args[0].clone();
    assert(strings_view(args@)[0] == args@[0]@);
    assert(strings_view(args@) == words(seg@));
    assert(program@ == args@[0]@);
    assert(words(seg@).len() > 0);
    Ok(Stage { program, args })
}

/// Parses a line into a pipeline of one or two commands.
pub fn parse_cmd(line: &str) -> (r: Result<Vec<Stage>, CmdError>)
    ensures
        match r {
            Ok(v) => {
                &&& cmd_error(line@) is None
                &&& 1 <= v@.len() <= 2
                &&& v@.len() == pipe_segments(line@).len()
                &&& forall|i: int| 0 <= i < v@.len() ==> stage_of(#[trigger] v@[i], pipe_segments(line@)[i])
            },
            Err(e) => cmd_error(line@) == Some(e),
        },
{
    let segs = parse_pipe(line);
    let ghost sv = pipe_segments(line@);
    proof {
        lemma_segments_nonempty(line@);
    }
    assert(segs@.len() == sv.len());
    if segs.len() > 2 {
        return Err(CmdError::TooManyStages);
    }
    let mut out: Vec<Stage> = Vec::new();
    let mut i: usize = 0;
    while i < segs.len()
        invariant
            sv == pipe_segments(line@),
            strings_view(segs@) == sv,
            segs@.len() == sv.len(),
            sv.len() <= 2,
            i <= segs@.len(),
            out@.len() == i,
            forall|k: int| 0 <= k < i ==> stage_of(#[trigger] out@[k], sv[k]),
        decreases segs.len() - i,
    {
        assert(segs@[i as int]@ == sv[i as int]);
        match parse_cmd_one(segs[i].as_str()) {
            Ok(st) => out.push(st),
            Err(e) => {
                assert(words(sv[i as int]).len() == 0);
                assert(exists|k: int| 0 <= k < sv.len() && words(#[trigger] sv[k]).len() == 0);
                assert(cmd_error(line@) == Some(CmdError::Empty));
                return Err(e);
            },
        }
        i = i + 1;
    }
    assert forall|k: int| 0 <= k < sv.len() implies words(#[trigger] sv[k]).len() != 0 by {
        assert(stage_of(out@[k], sv[k]));
    }
    Ok(out)
}

} // verus!
