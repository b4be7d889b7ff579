//! A small interactive shell with job control, and a regular-expression
//! engine.
//!
//! The job-control engine (`Worker`) is a state machine over a table of
//! jobs: it decides what the shell does for each submitted line and for
//! each child-status change, while the caller performs the system calls.
mod cmdline;
mod engine;
mod launch;
mod number;
mod worker;

pub use cmdline::{parse_cmd, parse_cmd_one, parse_pipe, CmdError, Stage};
pub use engine::{do_matching, parse, ParseError, AST};
pub use launch::{stage_wiring, Group, PipeEnd, Wiring};
pub use number::{parse_i32, parse_usize};
pub use worker::{
    builtin_of, cd_target, Action, Builtin, ChildEvent, Job, JobStatus, Member, Notice, ProcState,
    Reply, Step, Worker,
};
