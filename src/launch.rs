//! How the stages of a pipeline are wired when they are launched.
use vstd::prelude::*;

verus! {

/// One end of the pipe that joins two stages.
#[derive(Debug, Clone, Copy, PartialEq, Eq, Structural)]
pub enum PipeEnd {
    Read,
    Write,
}

/// The process group that a launched stage joins.
#[derive(Debug, Clone, Copy, PartialEq, Eq, Structural)]
pub enum Group {
    /// A new group, led by the stage itself.
    Own,
    /// The group led by the first stage.
    Leader,
}

/// How one stage is launched: its group, what its standard input and
/// output are redirected to, and the pipe end it closes after the fork.
#[derive(Debug, Clone, Copy, PartialEq, Eq, Structural)]
pub struct Wiring {
    pub group: Group,
    pub stdin: Option<PipeEnd>,
    pub stdout: Option<PipeEnd>,
    pub close: Option<PipeEnd>,
}

/// The wiring of stage `index` of a pipeline of `stages` stages.
pub open spec fn wiring_of(stages: nat, index: nat) -> Wiring {
    if stages < 2 {
        Wiring { group: Group::Own, stdin: None, stdout: None, close: None }
    } else if index == 0 {
        Wiring { group: Group::Own, stdin: None, stdout: Some(PipeEnd::Write), close: Some(PipeEnd::Read) }
    } else {
        Wiring { group: Group::Leader, stdin: Some(PipeEnd::Read), stdout: None, close: Some(PipeEnd::Write) }
    }
}

/// The wiring of stage `index` of a pipeline of `stages` stages: a single
/// stage keeps the terminal's streams; of two, the first writes into the
/// pipe and the second reads from it, each closing the end it does not use.
pub fn stage_wiring(stages: usize, index: usize) -> (r: Wiring)
    requires
        1 <= stages <= 2,
        index < stages,
    ensures
        r == wiring_of(stages as nat, index as nat),
{
    if stages < 2 {
        Wiring { group: Group::Own, stdin: None, stdout: None, close: None }
    } else if index == 0 {
        Wiring { group: Group::Own, stdin: None, stdout: Some(PipeEnd::Write), close: Some(PipeEnd::Read) }
    } else {
        Wiring { group: Group::Leader, stdin: Some(PipeEnd::Read), stdout: None, close: Some(PipeEnd::Write) }
    }
}

/// In a two-stage pipeline the first stage's output is the pipe's write
/// end and the second stage's input its read end; both share the first
/// stage's group, and each stage closes the one end it does not use, so
/// that no stage holds an end it has no use for.
pub proof fn lemma_two_stage_pipe()
    ensures
        wiring_of(2, 0).stdout == Some(PipeEnd::Write),
        wiring_of(2, 1).stdin == Some(PipeEnd::Read),
        wiring_of(2, 0).group == Group::Own,
        wiring_of(2, 1).group == Group::Leader,
        forall|i: nat|
            i < 2 ==> {
                let w = #[trigger] wiring_of(2, i);
                &&& w.close is Some
                &&& w.stdin != w.close
                &&& w.stdout != w.close
                &&& (w.stdin is Some || w.stdout is Some)
            },
{
}

} // verus!
