//! The job-control engine: a table of jobs and the decisions taken on each
//! submitted line and each child-status change.
//!
//! The engine never touches the operating system. Each call returns a
//! `Step`: what to tell the user and what the caller must do next (answer
//! the front end, hand the terminal to a group, launch a pipeline, change
//! directory). Results of that work come back through further calls.
use vstd::prelude::*;
use crate::cmdline::Stage;
use crate::cmdline::CmdError;
use crate::cmdline::{cmd_error, parse_cmd, pipe_segments, stage_of, strings_view, words};
use crate::number::{i32_of, parse_i32, parse_usize, usize_of};

verus! {

/// Run state of one tracked process.
#[derive(Debug, Clone, Copy, PartialEq, Eq, Structural)]
pub enum ProcState {
    Running,
    Stopped,
}

/// One tracked process of a job.
#[derive(Debug, Clone, Copy, PartialEq, Eq, Structural)]
pub struct Member {
    pub pid: i32,
    pub state: ProcState,
}

/// One job: a launched pipeline sharing one process group.
pub struct Job {
    pub id: usize,
    pub pgid: i32,
    pub line: String,
    pub members: Vec<Member>,
}

/// A status change of a child, as collected by a non-blocking wait.
#[derive(Debug, Clone, Copy, PartialEq, Eq, Structural)]
pub enum ChildEvent {
    /// The process exited with this status.
    Exited(i32, i32),
    /// The process was terminated by this signal number.
    Signaled(i32, u8),
    /// The process was stopped.
    Stopped(i32),
    /// The process was continued.
    Continued(i32),
}

/// What the front end is told once a command is done with.
#[derive(Debug, Clone, Copy, PartialEq, Eq, Structural)]
pub enum Reply {
    /// Read the next line; the last exit status.
    Continue(i32),
    /// Leave the shell with this status.
    Quit(i32),
}

/// What the caller does after a step.
pub enum Action {
    /// Nothing; the front end keeps waiting.
    Idle,
    /// Answer the front end.
    Reply(Reply),
    /// Give the terminal back to the shell's own group, then answer.
    Release(Reply),
    /// Give the terminal to this newly registered group.
    Foreground(i32),
    /// Give the terminal to this group and send it the continue signal.
    Resume(i32),
    /// Launch these stages as one job, then call `register_job` or
    /// `launch_failed`.
    Launch(Vec<Stage>),
    /// Change the working directory, then call `cd_finished`.
    ChangeDir(String),
}

/// What the user is told.
pub enum Notice {
    Quiet,
    /// The line is not a runnable pipeline.
    BadCommand(CmdError),
    /// `exit` while jobs are registered.
    ExitRefused,
    /// `exit` with a code that is not an integer.
    BadExitCode(String),
    /// `fg` without a job id.
    FgUsage,
    /// `fg` with an unknown job id.
    NoSuchJob(String),
    /// The job with this id and command text was brought to the foreground.
    Resumed(usize, String),
    /// The foreground job finished.
    Finished(usize, String),
    /// The foreground job stopped.
    Stopped(usize, String),
    /// List the jobs, as `job_table` gives them.
    JobTable,
    /// Launched processes that could not be tracked.
    Untracked,
}

/// The outcome of one step of the engine.
pub struct Step {
    pub notice: Notice,
    pub action: Action,
}

/// One line of the `jobs` listing.
pub struct JobStatus {
    pub id: usize,
    pub stopped: bool,
    pub line: String,
}

/// The engine's state.
///
/// `jobs` holds each job with its members; the indices of the process
/// table (job id to group, group to members, process to state and group)
/// are views of it.
pub struct Worker {
    /// The last observed or assigned exit status.
    pub exit_val: i32,
    /// The group that holds the terminal; `None` when the shell holds it.
    pub fg: Option<i32>,
    /// The shell's own process group.
    pub shell_pgid: i32,
    /// The registered jobs, by ascending id.
    pub jobs: Vec<Job>,
}

pub open spec fn idle_step() -> Step {
    Step { notice: Notice::Quiet, action: Action::Idle }
}

pub open spec fn ids_ascending(jobs: Seq<Job>) -> bool {
    forall|a: int, b: int| 0 <= a < b < jobs.len() ==> #[trigger] jobs[a].id < #[trigger] jobs[b].id
}

pub open spec fn groups_distinct(jobs: Seq<Job>) -> bool {
    forall|a: int, b: int|
        0 <= a < jobs.len() && 0 <= b < jobs.len() && a != b ==> #[trigger] jobs[a].pgid
            != #[trigger] jobs[b].pgid
}

pub open spec fn pids_distinct(jobs: Seq<Job>) -> bool {
    forall|a: int, x: int, b: int, y: int|
        0 <= a < jobs.len() && 0 <= b < jobs.len() && 0 <= x < jobs[a].members@.len() && 0 <= y
            < jobs[b].members@.len() && (a != b || x != y) ==> #[trigger] jobs[a].members@[x].pid
            != #[trigger] jobs[b].members@[y].pid
}

pub open spec fn none_empty(jobs: Seq<Job>) -> bool {
    forall|a: int| 0 <= a < jobs.len() ==> #[trigger] jobs[a].members@.len() > 0
}

/// The job id `id` is in use.
pub open spec fn id_used(jobs: Seq<Job>, id: usize) -> bool {
    exists|a: int| 0 <= a < jobs.len() && #[trigger] jobs[a].id == id
}

/// The group `pgid` belongs to a job.
pub open spec fn group_used(jobs: Seq<Job>, pgid: i32) -> bool {
    exists|a: int| 0 <= a < jobs.len() && #[trigger] jobs[a].pgid == pgid
}

/// The process `pid` is a member of job `j`.
pub open spec fn has_pid(j: Job, pid: i32) -> bool {
    exists|x: int| 0 <= x < j.members@.len() && #[trigger] j.members@[x].pid == pid
}

/// The process `pid` is tracked.
pub open spec fn pid_used(jobs: Seq<Job>, pid: i32) -> bool {
    exists|a: int| 0 <= a < jobs.len() && has_pid(#[trigger] jobs[a], pid)
}

/// Every member of `ms` is stopped.
pub open spec fn all_stopped(ms: Seq<Member>) -> bool {
    forall|x: int| 0 <= x < ms.len() ==> #[trigger] ms[x].state == ProcState::Stopped
}

/// `new` is `old` with the members of job `a` replaced by `ms`.
pub open spec fn members_replaced(old: Seq<Job>, new: Seq<Job>, a: int, ms: Seq<Member>) -> bool {
    &&& new.len() == old.len()
    &&& forall|k: int| 0 <= k < old.len() && k != a ==> #[trigger] new[k] == old[k]
    &&& new[a].id == old[a].id
    &&& new[a].pgid == old[a].pgid
    &&& new[a].line == old[a].line
    &&& new[a].members@ == ms
}

/// What follows a change in the members of job `a` of `pre`, which now
/// are `ms`: a job left empty is deregistered, and a foreground job that
/// finished or wholly stopped hands the terminal back to the shell.
pub open spec fn settled(pre: Worker, a: int, ms: Seq<Member>, post: Worker, r: Step) -> bool {
    let job = pre.jobs@[a];
    let is_fg = pre.fg == Some(job.pgid);
    &&& post.shell_pgid == pre.shell_pgid
    &&& if ms.len() == 0 {
        &&& post.jobs@ == pre.jobs@.remove(a)
        &&& if is_fg {
            &&& post.fg is None
            &&& r == Step {
                notice: Notice::Finished(job.id, job.line),
                action: Action::Release(Reply::Continue(post.exit_val)),
            }
        } else {
            post.fg == pre.fg && r == idle_step()
        }
    } else {
        &&& members_replaced(pre.jobs@, post.jobs@, a, ms)
        &&& if is_fg && all_stopped(ms) {
            &&& post.fg is None
            &&& r == Step {
                notice: Notice::Stopped(job.id, job.line),
                action: Action::Release(Reply::Continue(post.exit_val)),
            }
        } else {
            post.fg == pre.fg && r == idle_step()
        }
    }
}

/// The step that the engine takes on a child-status change.
pub open spec fn child_step(pre: Worker, ev: ChildEvent, post: Worker, r: Step) -> bool {
    let pid = match ev {
        ChildEvent::Exited(p, _) => p,
        ChildEvent::Signaled(p, _) => p,
        ChildEvent::Stopped(p) => p,
        ChildEvent::Continued(p) => p,
    };
    let exit = match ev {
        ChildEvent::Exited(_, status) => status,
        ChildEvent::Signaled(_, sig) => (128 + sig as i32) as i32,
        _ => pre.exit_val,
    };
    &&& post.exit_val == exit
    &&& !pid_used(pre.jobs@, pid) ==> {
        &&& post.jobs@ == pre.jobs@
        &&& post.fg == pre.fg
        &&& post.shell_pgid == pre.shell_pgid
        &&& r == idle_step()
    }
    &&& forall|a: int, x: int|
        0 <= a < pre.jobs@.len() && 0 <= x < pre.jobs@[a].members@.len()
            && #[trigger] pre.jobs@[a].members@[x].pid == pid ==> {
            let ms = pre.jobs@[a].members@;
            match ev {
                ChildEvent::Stopped(_) => settled(
                    pre,
                    a,
                    ms.update(x, Member { pid, state: ProcState::Stopped }),
                    post,
                    r,
                ),
                ChildEvent::Continued(_) => {
                    &&& members_replaced(
                        pre.jobs@,
                        post.jobs@,
                        a,
                        ms.update(x, Member { pid, state: ProcState::Running }),
                    )
                    &&& post.fg == pre.fg
                    &&& post.shell_pgid == pre.shell_pgid
                    &&& r == idle_step()
                },
                _ => settled(pre, a, ms.remove(x), post, r),
            }
        }
}

/// Fresh members, all running, for the processes `pids`.
pub open spec fn running_members(pids: Seq<i32>) -> Seq<Member> {
    pids.map_values(|p: i32| Member { pid: p, state: ProcState::Running })
}

/// The processes `pids` can form a new job: distinct, untracked, and
/// their leader's group is not a job's group yet.
pub open spec fn can_register(jobs: Seq<Job>, pids: Seq<i32>) -> bool {
    &&& forall|i: int, j: int| 0 <= i < j < pids.len() ==> #[trigger] pids[i] != #[trigger] pids[j]
    &&& forall|i: int| 0 <= i < pids.len() ==> !pid_used(jobs, #[trigger] pids[i])
    &&& !group_used(jobs, pids[0])
}

/// The step that registers the job `line`, launched as the processes
/// `pids` whose first one leads the group.
pub open spec fn register_step(pre: Worker, line: Seq<char>, pids: Seq<i32>, post: Worker, r: Step) -> bool {
    if can_register(pre.jobs@, pids) {
        &&& post.exit_val == pre.exit_val
        &&& post.shell_pgid == pre.shell_pgid
        &&& post.fg == Some(pids[0])
        &&& post.jobs@.len() == pre.jobs@.len() + 1
        &&& exists|k: int|
            0 <= k < post.jobs@.len() && post.jobs@.remove(k) == pre.jobs@ && {
                let j = #[trigger] post.jobs@[k];
                &&& !id_used(pre.jobs@, j.id)
                &&& forall|m: usize| m < j.id ==> id_used(pre.jobs@, m)
                &&& j.pgid == pids[0]
                &&& j.line@ == line
                &&& j.members@ == running_members(pids)
            }
        &&& r == Step { notice: Notice::Quiet, action: Action::Foreground(pids[0]) }
    } else {
        &&& post == pre
        &&& r == Step { notice: Notice::Untracked, action: Action::Reply(Reply::Continue(pre.exit_val)) }
    }
}

/// The built-in commands.
#[derive(Debug, Clone, Copy, PartialEq, Eq, Structural)]
pub enum Builtin {
    Exit,
    Jobs,
    Fg,
    Cd,
}

/// The built-in command named `name`, if any.
pub open spec fn builtin_named(name: Seq<char>) -> Option<Builtin> {
    if name == seq!['e', 'x', 'i', 't'] {
        Some(Builtin::Exit)
    } else if name == seq!['j', 'o', 'b', 's'] {
        Some(Builtin::Jobs)
    } else if name == seq!['f', 'g'] {
        Some(Builtin::Fg)
    } else if name == seq!['c', 'd'] {
        Some(Builtin::Cd)
    } else {
        None
    }
}

/// The directory that `cd` with the argument vector `args` goes to, when
/// the home directory is `home`.
pub open spec fn cd_dir(args: Seq<Seq<char>>, home: Option<Seq<char>>) -> Seq<char> {
    if args.len() >= 2 {
        args[1]
    } else {
        match home {
            Some(h) => h,
            None => seq!['/'],
        }
    }
}

/// The characters of an optional string.
pub open spec fn opt_view(o: Option<String>) -> Option<Seq<char>> {
    match o {
        Some(h) => Some(h@),
        None => None,
    }
}

/// `pre` with its exit status set to `v`.
pub open spec fn with_exit(pre: Worker, v: i32) -> Worker {
    Worker { exit_val: v, ..pre }
}

/// The step of `exit` with the argument vector `args`.
pub open spec fn exit_step(pre: Worker, args: Seq<Seq<char>>, post: Worker, r: Step) -> bool {
    if pre.jobs@.len() > 0 {
        &&& post == with_exit(pre, -1i32)
        &&& r == Step { notice: Notice::ExitRefused, action: Action::Reply(Reply::Continue(-1i32)) }
    } else if args.len() >= 2 {
        match i32_of(args[1]) {
            Some(n) => post == pre && r == Step {
                notice: Notice::Quiet,
                action: Action::Reply(Reply::Quit(n)),
            },
            None => {
                &&& post == with_exit(pre, 1)
                &&& r.notice matches Notice::BadExitCode(s) && s@ == args[1]
                &&& r.action == Action::Reply(Reply::Continue(1))
            },
        }
    } else {
        post == pre && r == Step { notice: Notice::Quiet, action: Action::Reply(Reply::Quit(pre.exit_val)) }
    }
}

/// `fg` refused: the exit status is set to failure and nothing else
/// changes.
pub open spec fn fg_refused(pre: Worker, args: Seq<Seq<char>>, post: Worker, r: Step) -> bool {
    &&& post == with_exit(pre, 1)
    &&& r.notice matches Notice::NoSuchJob(s) && s@ == args[1]
    &&& r.action == Action::Reply(Reply::Continue(1))
}

/// The step of `fg` with the argument vector `args`.
pub open spec fn fg_step(pre: Worker, args: Seq<Seq<char>>, post: Worker, r: Step) -> bool {
    if args.len() < 2 {
        &&& post == with_exit(pre, 1)
        &&& r == Step { notice: Notice::FgUsage, action: Action::Reply(Reply::Continue(1)) }
    } else {
        match usize_of(args[1]) {
            Some(n) => if id_used(pre.jobs@, n) {
                exists|a: int|
                    0 <= a < pre.jobs@.len() && #[trigger] pre.jobs@[a].id == n && {
                        let job = pre.jobs@[a];
                        &&& post == Worker { exit_val: 1, fg: Some(job.pgid), ..pre }
                        &&& r == Step {
                            notice: Notice::Resumed(n, job.line),
                            action: Action::Resume(job.pgid),
                        }
                    }
            } else {
                fg_refused(pre, args, post, r)
            },
            None => fg_refused(pre, args, post, r),
        }
    }
}

/// The step of the built-in `b` with the argument vector `args`.
pub open spec fn builtin_step(pre: Worker, b: Builtin, args: Seq<Seq<char>>, post: Worker, r: Step) -> bool {
    match b {
        Builtin::Exit => exit_step(pre, args, post, r),
        Builtin::Jobs => post == with_exit(pre, 0) && r == Step {
            notice: Notice::JobTable,
            action: Action::Reply(Reply::Continue(0)),
        },
        Builtin::Fg => fg_step(pre, args, post, r),
        Builtin::Cd => {
            &&& post == pre
            &&& r.notice == Notice::Quiet
            &&& r.action matches Action::ChangeDir(d) && exists|h: Option<Seq<char>>| d@ == cd_dir(args, h)
        },
    }
}

/// The step that the engine takes on the submitted line `line`.
pub open spec fn line_step(pre: Worker, line: Seq<char>, post: Worker, r: Step) -> bool {
    match cmd_error(line) {
        Some(e) => post == pre && r == Step {
            notice: Notice::BadCommand(e),
            action: Action::Reply(Reply::Continue(pre.exit_val)),
        },
        None => {
            let segs = pipe_segments(line);
            let args = words(segs[0]);
            if segs.len() == 1 && builtin_named(args[0]) is Some {
                builtin_step(pre, builtin_named(args[0])->0, args, post, r)
            } else {
                &&& post == pre
                &&& r.notice == Notice::Quiet
                &&& r.action matches Action::Launch(v) && v@.len() == segs.len() && forall|i: int|
                    0 <= i < v@.len() ==> stage_of(#[trigger] v@[i], segs[i])
            }
        },
    }
}

/// Relies on `dirs::home_dir`: the user's home directory, when one is
/// known. What it returns depends on the environment.
#[verifier::external_body]
fn home_dir() -> (r: Option<String>) {
    match dirs::home_dir() {
        Some(p) => Some(p.to_string_lossy().into_owned()),
        None => None,
    }
}

/// The directory that `cd` with the argument vector `args` goes to, when
/// the home directory is `home`: the first argument, else the home
/// directory, else the root.
pub fn cd_target(args: &Vec<String>, home: Option<String>) -> (r: String)
    ensures
        r@ == cd_dir(strings_view(args@), opt_view(home)),
{
    if args.len() >= 2 {
        args[1].clone()
    } else {
        match home {
            Some(h) => h,
            None => {
                let root = String::from_str("/");
                proof {
                    reveal_strlit("/");
                }
                root
            },
        }
    }
}

/// The built-in command named `name`, if any.
pub fn builtin_of(name: &str) -> (r: Option<Builtin>)
    ensures
        r == builtin_named(name@),
{
    let n = name.unicode_len();
    if n == 4 {
        let (c0, c1, c2, c3) = (name.get_char(0), name.get_char(1), name.get_char(2), name.get_char(3));
        if c0 == 'e' && c1 == 'x' && c2 == 'i' && c3 == 't' {
            assert(name@ =~= seq!['e', 'x', 'i', 't']);
            return Some(Builtin::Exit);
        }
        if c0 == 'j' && c1 == 'o' && c2 == 'b' && c3 == 's' {
            assert(name@ =~= seq!['j', 'o', 'b', 's']);
            return Some(Builtin::Jobs);
        }
        None
    } else if n == 2 {
        let (c0, c1) = (name.get_char(0), name.get_char(1));
        if c0 == 'f' && c1 == 'g' {
            assert(name@ =~= seq!['f', 'g']);
            return Some(Builtin::Fg);
        }
        if c0 == 'c' && c1 == 'd' {
            assert(name@ =~= seq!['c', 'd']);
            return Some(Builtin::Cd);
        }
        None
    } else {
        None
    }
}

impl Worker {
    /// The table's invariant.
    pub open spec fn wf(&self) -> bool {
        &&& ids_ascending(self.jobs@)
        &&& groups_distinct(self.jobs@)
        &&& pids_distinct(self.jobs@)
        &&& none_empty(self.jobs@)
        &&& self.fg matches Some(g) ==> group_used(self.jobs@, g)
    }

    /// A fresh engine for a shell whose own group is `shell_pgid`.
    pub fn new(shell_pgid: i32) -> (r: Worker)
        ensures
            r.wf(),
            r.exit_val == 0,
            r.fg is None,
            r.shell_pgid == shell_pgid,
            r.jobs@.len() == 0,
    {
        Worker { exit_val: 0, fg: None, shell_pgid, jobs: Vec::new() }
    }

    /// The smallest job id that no registered job holds.
    pub fn new_job_id(&self) -> (r: usize)
        requires
            self.wf(),
        ensures
            !id_used(self.jobs@, r),
            forall|k: usize| k < r ==> id_used(self.jobs@, k),
            r <= self.jobs@.len(),
            forall|m: int| 0 <= m < r ==> #[trigger] self.jobs@[m].id == m,
    {
        let n = self.jobs.len();
        let mut k: usize = 0;
        while k < n
            invariant
                n == self.jobs@.len(),
                k <= n,
                ids_ascending(self.jobs@),
                forall|m: int| 0 <= m < k ==> #[trigger] self.jobs@[m].id == m,
            decreases n - k,
        {
            if self.jobs[k].id != k {
                proof {
                    if k > 0 {
                        assert(self.jobs@[k - 1].id == k - 1);
                        assert(self.jobs@[k - 1].id < self.jobs@[k as int].id);
                    }
                    assert forall|a: int| 0 <= a < n implies #[trigger] self.jobs@[a].id != k by {
                        if a < k {
                            assert(self.jobs@[a].id == a);
                        } else if a > k {
                            assert(self.jobs@[k as int].id < self.jobs@[a].id);
                        }
                    }
                    assert forall|m: usize| m < k implies id_used(self.jobs@, m) by {
                        assert(self.jobs@[m as int].id == m);
                    }
                }
                return k;
            }
            k = k + 1;
        }
        proof {
            assert forall|m: usize| m < n implies id_used(self.jobs@, m) by {
                assert(self.jobs@[m as int].id == m);
            }
            assert forall|a: int| 0 <= a < n implies #[trigger] self.jobs@[a].id != n by {
                assert(self.jobs@[a].id == a);
            }
        }
        n
    }

    /// Where the process `pid` stands in the table: job index and member
    /// index.
    pub fn find_pid(&self, pid: i32) -> (r: Option<(usize, usize)>)
        ensures
            match r {
                Some((a, x)) => a < self.jobs@.len() && x < self.jobs@[a as int].members@.len()
                    && self.jobs@[a as int].members@[x as int].pid == pid,
                None => !pid_used(self.jobs@, pid),
            },
    {
        let mut a: usize = 0;
        while a < self.jobs.len()
            invariant
                a <= self.jobs@.len(),
                forall|b: int| 0 <= b < a ==> !has_pid(#[trigger] self.jobs@[b], pid),
            decreases self.jobs@.len() - a,
        {
            let ms = &self.jobs[a].members;
            let mut x: usize = 0;
            while x < ms.len()
                invariant
                    a < self.jobs@.len(),
                    ms@ == self.jobs@[a as int].members@,
                    x <= ms@.len(),
                    forall|y: int| 0 <= y < x ==> #[trigger] ms@[y].pid != pid,
                decreases ms@.len() - x,
            {
                if ms[x].pid == pid {
                    return Some((a, x));
                }
                x = x + 1;
            }
            a = a + 1;
        }
        None
    }

    /// Settles job `a` of `pre` after a change of its members; `self` is
    /// `pre` with that job taken out, and `job` is the job as changed.
    fn reconcile(&mut self, a: usize, job: Job, Ghost(pre): Ghost<Worker>) -> (r: Step)
        requires
            pre.wf(),
            a < pre.jobs@.len(),
            old(self).jobs@ == pre.jobs@.remove(a as int),
            old(self).fg == pre.fg,
            old(self).shell_pgid == pre.shell_pgid,
            job.id == pre.jobs@[a as int].id,
            job.pgid == pre.jobs@[a as int].pgid,
            job.line == pre.jobs@[a as int].line,
            pids_within(job.members@, pre.jobs@[a as int].members@),
        ensures
            settled(pre, a as int, job.members@, *final(self), r),
            final(self).exit_val == old(self).exit_val,
            final(self).wf(),
    {
        let is_fg = match self.fg {
            Some(g) => g == job.pgid,
            None => false,
        };
        if job.members.len() == 0 {
            if is_fg {
                self.fg = None;
                proof {
                    lemma_remove_job_wf(pre, a as int, *self);
                }
                Step {
                    notice: Notice::Finished(job.id, job.line),
                    action: Action::Release(Reply::Continue(self.exit_val)),
                }
            } else {
                proof {
                    lemma_remove_job_wf(pre, a as int, *self);
                }
                Step { notice: Notice::Quiet, action: Action::Idle }
            }
        } else {
            let stopped = is_fg && all_members_stopped(&job.members);
            let ghost ms = job.members@;
            if stopped {
                let notice = Notice::Stopped(job.id, job.line.clone());
                self.jobs.insert(a, job);
                self.fg = None;
                proof {
                    assert(self.jobs@ =~= pre.jobs@.remove(a as int).insert(a as int, job));
                    lemma_replace_members_wf(pre, a as int, *self);
                }
                Step { notice, action: Action::Release(Reply::Continue(self.exit_val)) }
            } else {
                self.jobs.insert(a, job);
                proof {
                    assert(self.jobs@ =~= pre.jobs@.remove(a as int).insert(a as int, job));
                    lemma_replace_members_wf(pre, a as int, *self);
                }
                Step { notice: Notice::Quiet, action: Action::Idle }
            }
        }
    }

    /// Takes in one status change of a child.
    pub fn handle_child(&mut self, ev: ChildEvent) -> (r: Step)
        requires
            old(self).wf(),
        ensures
            final(self).wf(),
            child_step(*old(self), ev, *final(self), r),
    {
        let ghost pre = *self;
        let pid = match ev {
            ChildEvent::Exited(p, _) => p,
            ChildEvent::Signaled(p, _) => p,
            ChildEvent::Stopped(p) => p,
            ChildEvent::Continued(p) => p,
        };
        match ev {
            ChildEvent::Exited(_, status) => {
                self.exit_val = status;
            },
            ChildEvent::Signaled(_, sig) => {
                self.exit_val = 128 + sig as i32;
            },
            _ => {},
        }
        proof {
            lemma_pids_distinct_within(pre.jobs@);
        }
        let loc = self.find_pid(pid);
        match loc {
            None => {
                assert(self.jobs@ == pre.jobs@);
                Step { notice: Notice::Quiet, action: Action::Idle }
            },
            Some((a, x)) => {
                let mut job = self.jobs.remove(a);
                let ghost ms = job.members@;
                match ev {
                    ChildEvent::Continued(_) => {
                        job.members.set(x, Member { pid, state: ProcState::Running });
                        self.jobs.insert(a, job);
                        proof {
                            assert(self.jobs@ =~= pre.jobs@.remove(a as int).insert(a as int, job));
                            lemma_same_location(pre.jobs@, a as int, x as int);
                            lemma_update_within(ms, x as int, ProcState::Running);
                            lemma_replace_members_wf(pre, a as int, *self);
                        }
                        return Step { notice: Notice::Quiet, action: Action::Idle };
                    },
                    ChildEvent::Stopped(_) => {
                        job.members.set(x, Member { pid, state: ProcState::Stopped });
                        proof {
                            lemma_update_within(ms, x as int, ProcState::Stopped);
                        }
                    },
                    _ => {
                        job.members.remove(x);
                        proof {
                            lemma_remove_within(ms, x as int);
                        }
                    },
                }
                let r = self.reconcile(a, job, Ghost(pre));
                proof {
                    lemma_same_location(pre.jobs@, a as int, x as int);
                }
                r
            },
        }
    }

    /// Where the job of group `pgid` stands in the table.
    pub fn find_group(&self, pgid: i32) -> (r: Option<usize>)
        ensures
            match r {
                Some(a) => a < self.jobs@.len() && self.jobs@[a as int].pgid == pgid,
                None => !group_used(self.jobs@, pgid),
            },
    {
        let mut a: usize = 0;
        while a < self.jobs.len()
            invariant
                a <= self.jobs@.len(),
                forall|b: int| 0 <= b < a ==> #[trigger] self.jobs@[b].pgid != pgid,
            decreases self.jobs@.len() - a,
        {
            if self.jobs[a].pgid == pgid {
                return Some(a);
            }
            a = a + 1;
        }
        None
    }

    /// Where the job with id `id` stands in the table.
    pub fn find_job(&self, id: usize) -> (r: Option<usize>)
        ensures
            match r {
                Some(a) => a < self.jobs@.len() && self.jobs@[a as int].id == id,
                None => !id_used(self.jobs@, id),
            },
    {
        let mut a: usize = 0;
        while a < self.jobs.len()
            invariant
                a <= self.jobs@.len(),
                forall|b: int| 0 <= b < a ==> #[trigger] self.jobs@[b].id != id,
            decreases self.jobs@.len() - a,
        {
            if self.jobs[a].id == id {
                return Some(a);
            }
            a = a + 1;
        }
        None
    }

    /// Registers a launched pipeline as a new foreground job: `line` is its
    /// command text and `pids` its processes, the first one leading the group.
    pub fn register_job(&mut self, line: &str, pids: &Vec<i32>) -> (r: Step)
        requires
            old(self).wf(),
            1 <= pids@.len() <= 2,
        ensures
            final(self).wf(),
            register_step(*old(self), line@, pids@, *final(self), r),
    {
        let ghost pre = *self;
        let mut fresh = !(pids.len() == 2 && pids[0] == pids[1]);
        let mut i: usize = 0;
        while i < pids.len()
            invariant
                *self == pre,
                i <= pids@.len(),
                1 <= pids@.len() <= 2,
                fresh <==> (!(pids@.len() == 2 && pids@[0] == pids@[1]) && forall|k: int|
                    0 <= k < i ==> !pid_used(self.jobs@, #[trigger] pids@[k])),
            decreases pids@.len() - i,
        {
            if self.find_pid(pids[i]).is_some() {
                fresh = false;
            }
            i = i + 1;
        }
        if self.find_group(pids[0]).is_some() {
            fresh = false;
        }
        if !fresh {
            return Step {
                notice: Notice::Untracked,
                action: Action::Reply(Reply::Continue(self.exit_val)),
            };
        }
        let id = self.new_job_id();
        let mut members: Vec<Member> = Vec::new();
        let mut i: usize = 0;
        while i < pids.len()
            invariant
                i <= pids@.len(),
                members@ == running_members(pids@.take(i as int)),
            decreases pids@.len() - i,
        {
            members.push(Member { pid: pids[i], state: ProcState::Running });
            proof {
                assert(running_members(pids@.take(i + 1)) =~= running_members(pids@.take(i as int)).push(
                    Member { pid: pids@[i as int], state: ProcState::Running },
                ));
            }
            i = i + 1;
        }
        proof {
            assert(pids@.take(pids@.len() as int) =~= pids@);
        }
        let pgid = pids[0];
        let job = Job { id, pgid, line: line.to_owned(), members };
        self.jobs.insert(id, job);
        self.fg = Some(pgid);
        proof {
            assert(self.jobs@.remove(id as int) =~= pre.jobs@);
            assert(self.jobs@[id as int] == job);
            assert(job.members@.map_values(|m: Member| m.pid) =~= pids@);
            lemma_insert_job_wf(pre, id as int, *self);
            assert(register_step(pre, line@, pids@, *self, Step { notice: Notice::Quiet, action: Action::Foreground(pgid) }));
        }
        Step { notice: Notice::Quiet, action: Action::Foreground(pgid) }
    }

    /// The answer after a launch failed: nothing was registered.
    pub fn launch_failed(&self) -> (r: Step)
        ensures
            r == (Step { notice: Notice::Quiet, action: Action::Reply(Reply::Continue(self.exit_val)) }),
    {
        Step { notice: Notice::Quiet, action: Action::Reply(Reply::Continue(self.exit_val)) }
    }

    /// Records whether the directory change of `cd` succeeded, and answers.
    pub fn cd_finished(&mut self, ok: bool) -> (r: Step)
        requires
            old(self).wf(),
        ensures
            final(self).wf(),
            final(self).exit_val == (if ok { 0i32 } else { 1i32 }),
            final(self).fg == old(self).fg,
            final(self).shell_pgid == old(self).shell_pgid,
            final(self).jobs@ == old(self).jobs@,
            r == (Step {
                notice: Notice::Quiet,
                action: Action::Reply(Reply::Continue(final(self).exit_val)),
            }),
    {
        self.exit_val = if ok { 0 } else { 1 };
        Step { notice: Notice::Quiet, action: Action::Reply(Reply::Continue(self.exit_val)) }
    }

    /// The `jobs` listing: each job by ascending id, stopped when all of
    /// its members are.
    pub fn job_table(&self) -> (r: Vec<JobStatus>)
        ensures
            r@.len() == self.jobs@.len(),
            forall|a: int|
                0 <= a < r@.len() ==> {
                    &&& (#[trigger] r@[a]).id == self.jobs@[a].id
                    &&& r@[a].stopped == all_stopped(self.jobs@[a].members@)
                    &&& r@[a].line == self.jobs@[a].line
                },
    {
        let mut out: Vec<JobStatus> = Vec::new();
        let mut a: usize = 0;
        while a < self.jobs.len()
            invariant
                a <= self.jobs@.len(),
                out@.len() == a,
                forall|b: int|
                    0 <= b < a ==> {
                        &&& (#[trigger] out@[b]).id == self.jobs@[b].id
                        &&& out@[b].stopped == all_stopped(self.jobs@[b].members@)
                        &&& out@[b].line == self.jobs@[b].line
                    },
            decreases self.jobs@.len() - a,
        {
            let job = &self.jobs[a];
            let stopped = all_members_stopped(&job.members);
            out.push(JobStatus { id: job.id, stopped, line: job.line.clone() });
            a = a + 1;
        }
        out
    }

    /// `exit`: refused while jobs are registered; else quit with the given
    /// code, or with the last status when none is given.
    pub fn run_exit(&mut self, args: &Vec<String>) -> (r: Step)
        requires
            old(self).wf(),
        ensures
            final(self).wf(),
            exit_step(*old(self), strings_view(args@), *final(self), r),
    {
        if self.jobs.len() > 0 {
            self.exit_val = -1;
            return Step { notice: Notice::ExitRefused, action: Action::Reply(Reply::Continue(-1)) };
        }
        if args.len() >= 2 {
            match parse_i32(args[1].as_str()) {
                Some(n) => Step { notice: Notice::Quiet, action: Action::Reply(Reply::Quit(n)) },
                None => {
                    self.exit_val = 1;
                    Step {
                        notice: Notice::BadExitCode(args[1].clone()),
                        action: Action::Reply(Reply::Continue(1)),
                    }
                },
            }
        } else {
            Step { notice: Notice::Quiet, action: Action::Reply(Reply::Quit(self.exit_val)) }
        }
    }

    /// `jobs`: list the jobs and succeed.
    pub fn run_jobs(&mut self) -> (r: Step)
        requires
            old(self).wf(),
        ensures
            final(self).wf(),
            *final(self) == with_exit(*old(self), 0),
            r == (Step { notice: Notice::JobTable, action: Action::Reply(Reply::Continue(0)) }),
    {
        self.exit_val = 0;
        Step { notice: Notice::JobTable, action: Action::Reply(Reply::Continue(0)) }
    }

    /// `fg <id>`: give the terminal to the job with that id and continue it.
    pub fn run_fg(&mut self, args: &Vec<String>) -> (r: Step)
        requires
            old(self).wf(),
        ensures
            final(self).wf(),
            fg_step(*old(self), strings_view(args@), *final(self), r),
    {
        let ghost pre = *self;
        self.exit_val = 1;
        if args.len() < 2 {
            return Step { notice: Notice::FgUsage, action: Action::Reply(Reply::Continue(1)) };
        }
        if let Some(n) = parse_usize(args[1].as_str()) {
            if let Some(a) = self.find_job(n) {
                let pgid = self.jobs[a].pgid;
                let line = self.jobs[a].line.clone();
                self.fg = Some(pgid);
                proof {
                    assert(group_used(self.jobs@, pgid));
                }
                return Step { notice: Notice::Resumed(n, line), action: Action::Resume(pgid) };
            }
        }
        Step {
            notice: Notice::NoSuchJob(args[1].clone()),
            action: Action::Reply(Reply::Continue(1)),
        }
    }

    /// `cd [dir]`: change to `dir`, or to the home directory.
    pub fn run_cd(&self, args: &Vec<String>) -> (r: Step)
        ensures
            r.notice == Notice::Quiet,
            r.action matches Action::ChangeDir(d) && exists|h: Option<Seq<char>>|
                d@ == cd_dir(strings_view(args@), h),
    {
        let home = if args.len() >= 2 {
            None
        } else {
            home_dir()
        };
        let d = cd_target(args, home);
        Step { notice: Notice::Quiet, action: Action::ChangeDir(d) }
    }

    /// Runs `cmd` as a built-in when it is one: a single stage whose
    /// program is `exit`, `jobs`, `fg` or `cd`.
    pub fn built_in_cmd(&mut self, cmd: &Vec<Stage>) -> (r: Option<Step>)
        requires
            old(self).wf(),
            cmd@.len() > 0,
            forall|i: int| 0 <= i < cmd@.len() ==> strings_view((#[trigger] cmd@[i]).args@).len() > 0
                && cmd@[i].program@ == strings_view(cmd@[i].args@)[0],
        ensures
            final(self).wf(),
            match r {
                Some(step) => {
                    &&& cmd@.len() == 1
                    &&& builtin_named(cmd@[0].program@) matches Some(b) && builtin_step(
                        *old(self),
                        b,
                        strings_view(cmd@[0].args@),
                        *final(self),
                        step,
                    )
                },
                None => *final(self) == *old(self) && (cmd@.len() > 1 || builtin_named(
                    cmd@[0].program@,
                ) is None),
            },
    {
        if cmd.len() > 1 {
            return None;
        }
        let stage = &cmd[0];
        match builtin_of(stage.program.as_str()) {
            Some(Builtin::Exit) => Some(self.run_exit(&stage.args)),
            Some(Builtin::Jobs) => Some(self.run_jobs()),
            Some(Builtin::Fg) => Some(self.run_fg(&stage.args)),
            Some(Builtin::Cd) => Some(self.run_cd(&stage.args)),
            None => None,
        }
    }

    /// Takes in one submitted line: reports a malformed one, runs a
    /// built-in, or asks for the pipeline to be launched.
    pub fn handle_line(&mut self, line: &str) -> (r: Step)
        requires
            old(self).wf(),
        ensures
            final(self).wf(),
            line_step(*old(self), line@, *final(self), r),
    {
        match parse_cmd(line) {
            Err(e) => Step {
                notice: Notice::BadCommand(e),
                action: Action::Reply(Reply::Continue(self.exit_val)),
            },
            Ok(cmd) => {
                proof {
                    assert(stage_of(cmd@[0], pipe_segments(line@)[0]));
                }
                match self.built_in_cmd(&cmd) {
                    Some(step) => step,
                    None => Step { notice: Notice::Quiet, action: Action::Launch(cmd) },
                }
            },
        }
    }
}

/// Every member of `ms` is stopped.
fn all_members_stopped(ms: &Vec<Member>) -> (r: bool)
    ensures
        r == all_stopped(ms@),
{
    let mut x: usize = 0;
    while x < ms.len()
        invariant
            x <= ms@.len(),
            forall|y: int| 0 <= y < x ==> #[trigger] ms@[y].state == ProcState::Stopped,
        decreases ms@.len() - x,
    {
        if ms[x].state != ProcState::Stopped {
            return false;
        }
        x = x + 1;
    }
    true
}

/// Under distinct pids, the member found at `(a, x)` is the only one with
/// its pid.
proof fn lemma_same_location(jobs: Seq<Job>, a: int, x: int)
    requires
        pids_distinct(jobs),
        0 <= a < jobs.len(),
        0 <= x < jobs[a].members@.len(),
    ensures
        forall|b: int, y: int|
            0 <= b < jobs.len() && 0 <= y < jobs[b].members@.len()
                && #[trigger] jobs[b].members@[y].pid == jobs[a].members@[x].pid ==> b == a && y
                == x,
{
}

/// The members `ms` have distinct pids, each of them a pid of `old`.
pub open spec fn pids_within(ms: Seq<Member>, old: Seq<Member>) -> bool {
    &&& forall|y: int|
        0 <= y < ms.len() ==> exists|x: int| 0 <= x < old.len() && old[x].pid == #[trigger] ms[y].pid
    &&& forall|y: int, z: int|
        0 <= y < ms.len() && 0 <= z < ms.len() && y != z ==> #[trigger] ms[y].pid != #[trigger] ms[z].pid
}

proof fn lemma_pids_distinct_within(jobs: Seq<Job>)
    requires
        pids_distinct(jobs),
    ensures
        forall|a: int|
            0 <= a < jobs.len() ==> pids_within(#[trigger] jobs[a].members@, jobs[a].members@),
{
    assert forall|a: int| 0 <= a < jobs.len() implies pids_within(
        #[trigger] jobs[a].members@,
        jobs[a].members@,
    ) by {
        let ms = jobs[a].members@;
        assert forall|y: int| 0 <= y < ms.len() implies exists|x: int|
            0 <= x < ms.len() && ms[x].pid == #[trigger] ms[y].pid by {
            assert(ms[y].pid == ms[y].pid);
        }
        assert forall|y: int, z: int|
            0 <= y < ms.len() && 0 <= z < ms.len() && y != z implies #[trigger] ms[y].pid
            != #[trigger] ms[z].pid by {
            assert(jobs[a].members@[y].pid != jobs[a].members@[z].pid);
        }
    }
}

proof fn lemma_update_within(ms: Seq<Member>, x: int, st: ProcState)
    requires
        pids_within(ms, ms),
        0 <= x < ms.len(),
    ensures
        pids_within(ms.update(x, Member { pid: ms[x].pid, state: st }), ms),
{
    let n = ms.update(x, Member { pid: ms[x].pid, state: st });
    assert forall|y: int| 0 <= y < n.len() implies exists|z: int|
        0 <= z < ms.len() && ms[z].pid == #[trigger] n[y].pid by {
        assert(ms[y].pid == n[y].pid);
    }
    assert forall|y: int, z: int|
        0 <= y < n.len() && 0 <= z < n.len() && y != z implies #[trigger] n[y].pid
        != #[trigger] n[z].pid by {
        assert(n[y].pid == ms[y].pid && n[z].pid == ms[z].pid);
    }
}

proof fn lemma_remove_within(ms: Seq<Member>, x: int)
    requires
        pids_within(ms, ms),
        0 <= x < ms.len(),
    ensures
        pids_within(ms.remove(x), ms),
{
    let n = ms.remove(x);
    assert forall|y: int| 0 <= y < n.len() implies exists|z: int|
        0 <= z < ms.len() && ms[z].pid == #[trigger] n[y].pid by {
        if y < x {
            assert(ms[y].pid == n[y].pid);
        } else {
            assert(ms[y + 1].pid == n[y].pid);
        }
    }
    assert forall|y: int, z: int|
        0 <= y < n.len() && 0 <= z < n.len() && y != z implies #[trigger] n[y].pid
        != #[trigger] n[z].pid by {
        let y0 = if y < x { y } else { y + 1 };
        let z0 = if z < x { z } else { z + 1 };
        assert(n[y] == ms[y0] && n[z] == ms[z0]);
    }
}

/// Deregistering a job that does not hold the terminal keeps the invariant.
proof fn lemma_remove_job_wf(pre: Worker, a: int, post: Worker)
    requires
        pre.wf(),
        0 <= a < pre.jobs@.len(),
        post.jobs@ == pre.jobs@.remove(a),
        post.fg is None || (post.fg == pre.fg && pre.fg != Some(pre.jobs@[a].pgid)),
    ensures
        post.wf(),
{
    let p = pre.jobs@;
    let q = post.jobs@;
    assert forall|k: int| 0 <= k < q.len() implies #[trigger] q[k] == p[if k < a { k } else { k + 1 }] by {}
    assert forall|i: int, j: int| 0 <= i < j < q.len() implies #[trigger] q[i].id < #[trigger] q[j].id by {
        let i0 = if i < a { i } else { i + 1 };
        let j0 = if j < a { j } else { j + 1 };
        assert(q[i] == p[i0] && q[j] == p[j0]);
    }
    assert forall|i: int, j: int|
        0 <= i < q.len() && 0 <= j < q.len() && i != j implies #[trigger] q[i].pgid
        != #[trigger] q[j].pgid by {
        let i0 = if i < a { i } else { i + 1 };
        let j0 = if j < a { j } else { j + 1 };
        assert(q[i] == p[i0] && q[j] == p[j0]);
    }
    assert forall|i: int, x: int, j: int, y: int|
        0 <= i < q.len() && 0 <= j < q.len() && 0 <= x < q[i].members@.len() && 0 <= y
            < q[j].members@.len() && (i != j || x != y) implies #[trigger] q[i].members@[x].pid
        != #[trigger] q[j].members@[y].pid by {
        let i0 = if i < a { i } else { i + 1 };
        let j0 = if j < a { j } else { j + 1 };
        assert(q[i] == p[i0] && q[j] == p[j0]);
        assert(p[i0].members@[x].pid != p[j0].members@[y].pid);
    }
    assert forall|i: int| 0 <= i < q.len() implies #[trigger] q[i].members@.len() > 0 by {
        let i0 = if i < a { i } else { i + 1 };
        assert(q[i] == p[i0]);
    }
    if post.fg is Some {
        let g = post.fg->0;
        let b = choose|b: int| 0 <= b < p.len() && #[trigger] p[b].pgid == g;
        assert(b != a);
        let b1 = if b < a { b } else { b - 1 };
        assert(q[b1] == p[b]);
        assert(group_used(q, g));
    }
}

/// Replacing the members of job `a` by members that keep distinct pids
/// of its own keeps the invariant.
proof fn lemma_replace_members_wf(pre: Worker, a: int, post: Worker)
    requires
        pre.wf(),
        0 <= a < pre.jobs@.len(),
        members_replaced(pre.jobs@, post.jobs@, a, post.jobs@[a].members@),
        post.jobs@[a].members@.len() > 0,
        pids_within(post.jobs@[a].members@, pre.jobs@[a].members@),
        post.fg is None || post.fg == pre.fg,
    ensures
        post.wf(),
{
    let p = pre.jobs@;
    let q = post.jobs@;
    assert forall|i: int, j: int| 0 <= i < j < q.len() implies #[trigger] q[i].id < #[trigger] q[j].id by {
        assert(q[i].id == p[i].id && q[j].id == p[j].id);
    }
    assert forall|i: int, j: int|
        0 <= i < q.len() && 0 <= j < q.len() && i != j implies #[trigger] q[i].pgid
        != #[trigger] q[j].pgid by {
        assert(q[i].pgid == p[i].pgid && q[j].pgid == p[j].pgid);
    }
    assert forall|i: int, x: int, j: int, y: int|
        0 <= i < q.len() && 0 <= j < q.len() && 0 <= x < q[i].members@.len() && 0 <= y
            < q[j].members@.len() && (i != j || x != y) implies #[trigger] q[i].members@[x].pid
        != #[trigger] q[j].members@[y].pid by {
        let ms = q[a].members@;
        let x0 = if i == a {
            choose|x0: int| 0 <= x0 < p[a].members@.len() && p[a].members@[x0].pid == ms[x].pid
        } else {
            x
        };
        let y0 = if j == a {
            choose|y0: int| 0 <= y0 < p[a].members@.len() && p[a].members@[y0].pid == ms[y].pid
        } else {
            y
        };
        if i == a {
            assert(ms[x].pid == ms[x].pid);
        }
        if j == a {
            assert(ms[y].pid == ms[y].pid);
        }
        if i == j {
            if i == a {
                assert(ms[x].pid != ms[y].pid);
            } else {
                assert(q[i] == p[i]);
                assert(p[i].members@[x].pid != p[i].members@[y].pid);
            }
        } else {
            assert(q[i].members@[x].pid == p[i].members@[x0].pid);
            assert(q[j].members@[y].pid == p[j].members@[y0].pid);
            assert(p[i].members@[x0].pid != p[j].members@[y0].pid);
        }
    }
    assert forall|i: int| 0 <= i < q.len() implies #[trigger] q[i].members@.len() > 0 by {
        if i != a {
            assert(q[i] == p[i]);
        }
    }
    if post.fg is Some {
        let g = post.fg->0;
        let b = choose|b: int| 0 <= b < p.len() && #[trigger] p[b].pgid == g;
        assert(q[b].pgid == p[b].pgid);
        assert(group_used(q, g));
    }
}

/// Inserting a job with the smallest free id at its place, whose
/// processes are fresh, and giving it the terminal keeps the invariant.
proof fn lemma_insert_job_wf(pre: Worker, k: int, post: Worker)
    requires
        pre.wf(),
        0 <= k < post.jobs@.len(),
        post.jobs@.remove(k) == pre.jobs@,
        post.jobs@.len() == pre.jobs@.len() + 1,
        post.jobs@[k].id == k,
        !id_used(pre.jobs@, post.jobs@[k].id),
        forall|m: int| 0 <= m < k ==> #[trigger] pre.jobs@[m].id == m,
        post.jobs@[k].members@.len() > 0,
        post.jobs@[k].pgid == post.jobs@[k].members@[0].pid,
        can_register(pre.jobs@, post.jobs@[k].members@.map_values(|m: Member| m.pid)),
        post.fg == Some(post.jobs@[k].pgid),
    ensures
        post.wf(),
{
    let p = pre.jobs@;
    let q = post.jobs@;
    let ps = q[k].members@.map_values(|m: Member| m.pid);
    assert forall|i: int| 0 <= i < q.len() && i != k implies #[trigger] q[i] == p[if i < k { i } else { i - 1 }] by {
        assert(q.remove(k)[if i < k { i } else { i - 1 }] == q[i]);
    }
    if k < p.len() {
        assert(p[k].id != k);
        if k > 0 {
            assert(p[k - 1].id == k - 1);
            assert(p[k - 1].id < p[k].id);
        }
    }
    assert forall|i: int, j: int| 0 <= i < j < q.len() implies #[trigger] q[i].id < #[trigger] q[j].id by {
        if i < k && j == k {
            assert(q[i] == p[i]);
        } else if i == k {
            assert(q[j] == p[j - 1]);
            assert(p[k].id <= p[j - 1].id);
        }
    }
    assert forall|i: int, j: int|
        0 <= i < q.len() && 0 <= j < q.len() && i != j implies #[trigger] q[i].pgid
        != #[trigger] q[j].pgid by {
        if i == k {
            let j0 = if j < k { j } else { j - 1 };
            assert(q[j] == p[j0]);
        } else if j == k {
            let i0 = if i < k { i } else { i - 1 };
            assert(q[i] == p[i0]);
        } else {
            let i0 = if i < k { i } else { i - 1 };
            let j0 = if j < k { j } else { j - 1 };
            assert(q[i] == p[i0] && q[j] == p[j0]);
        }
    }
    assert forall|i: int, x: int, j: int, y: int|
        0 <= i < q.len() && 0 <= j < q.len() && 0 <= x < q[i].members@.len() && 0 <= y
            < q[j].members@.len() && (i != j || x != y) implies #[trigger] q[i].members@[x].pid
        != #[trigger] q[j].members@[y].pid by {
        let i0 = if i < k { i } else { i - 1 };
        let j0 = if j < k { j } else { j - 1 };
        if i == k && j == k {
            assert(ps[x] == q[k].members@[x].pid && ps[y] == q[k].members@[y].pid);
            if x < y {
                assert(ps[x] != ps[y]);
            } else {
                assert(ps[y] != ps[x]);
            }
        } else if i == k {
            assert(q[j] == p[j0]);
            assert(ps[x] == q[k].members@[x].pid);
            assert(!pid_used(p, ps[x]));
            assert(!has_pid(p[j0], ps[x]));
        } else if j == k {
            assert(q[i] == p[i0]);
            assert(ps[y] == q[k].members@[y].pid);
            assert(!pid_used(p, ps[y]));
            assert(!has_pid(p[i0], ps[y]));
        } else {
            assert(q[i] == p[i0] && q[j] == p[j0]);
            assert(p[i0].members@[x].pid != p[j0].members@[y].pid);
        }
    }
    assert forall|i: int| 0 <= i < q.len() implies #[trigger] q[i].members@.len() > 0 by {
        if i != k {
            assert(q[i] == p[if i < k { i } else { i - 1 }]);
        }
    }
    assert(group_used(q, q[k].pgid));
}

/// The words of the single command of `line`, when `line` is a one-stage
/// command.
pub open spec fn sole_command(line: Seq<char>) -> Seq<Seq<char>> {
    words(pipe_segments(line)[0])
}

/// `line` is a well-formed single command running the built-in `b`.
pub open spec fn runs_builtin(line: Seq<char>, b: Builtin) -> bool {
    &&& cmd_error(line) is None
    &&& pipe_segments(line).len() == 1
    &&& builtin_named(sole_command(line)[0]) == Some(b)
}

/// A new job gets the smallest job id that no registered job holds.
pub proof fn lemma_job_id_smallest_free(
    pre: Worker,
    line: Seq<char>,
    pids: Seq<i32>,
    post: Worker,
    r: Step,
)
    requires
        register_step(pre, line, pids, post, r),
        can_register(pre.jobs@, pids),
    ensures
        exists|k: int|
            0 <= k < post.jobs@.len() && post.jobs@.remove(k) == pre.jobs@ && {
                let id = (#[trigger] post.jobs@[k]).id;
                &&& !id_used(pre.jobs@, id)
                &&& forall|m: usize| m < id ==> id_used(pre.jobs@, m)
            },
{
}

/// `exit` while a job is registered does not quit: it answers "continue"
/// with a failure status and leaves the table as it was.
pub proof fn lemma_exit_refused_with_jobs(pre: Worker, line: Seq<char>, post: Worker, r: Step)
    requires
        line_step(pre, line, post, r),
        runs_builtin(line, Builtin::Exit),
        pre.jobs@.len() > 0,
    ensures
        r.action == Action::Reply(Reply::Continue(-1i32)),
        post.exit_val == -1i32,
        post.jobs@ == pre.jobs@,
        post.fg == pre.fg,
{
}

/// `fg` naming no registered job reports the error, answers "continue"
/// with a failure status, and leaves the foreground group as it was.
pub proof fn lemma_fg_unknown_job(pre: Worker, line: Seq<char>, post: Worker, r: Step)
    requires
        line_step(pre, line, post, r),
        runs_builtin(line, Builtin::Fg),
        sole_command(line).len() >= 2,
        !(usize_of(sole_command(line)[1]) matches Some(n) && id_used(pre.jobs@, n)),
    ensures
        r.notice is NoSuchJob,
        r.action == Action::Reply(Reply::Continue(1i32)),
        post.fg == pre.fg,
        post.jobs@ == pre.jobs@,
{
}

/// A foreground job whose last running process stops is listed as
/// stopped, stays registered, and gives the terminal back to the shell;
/// `fg` with its id then gives the terminal to its group and continues it.
pub proof fn lemma_stop_then_fg(
    pre: Worker,
    a: int,
    x: int,
    mid: Worker,
    r1: Step,
    args: Seq<Seq<char>>,
    post: Worker,
    r2: Step,
)
    requires
        pre.wf(),
        0 <= a < pre.jobs@.len(),
        0 <= x < pre.jobs@[a].members@.len(),
        pre.fg == Some(pre.jobs@[a].pgid),
        forall|y: int|
            0 <= y < pre.jobs@[a].members@.len() && y != x ==> (#[trigger] pre.jobs@[a].members@[y]).state
                == ProcState::Stopped,
        child_step(pre, ChildEvent::Stopped(pre.jobs@[a].members@[x].pid), mid, r1),
        args.len() >= 2,
        usize_of(args[1]) == Some(pre.jobs@[a].id),
        builtin_step(mid, Builtin::Fg, args, post, r2),
    ensures
        mid.fg is None,
        r1.notice is Stopped,
        r1.action == Action::Release(Reply::Continue(mid.exit_val)),
        mid.jobs@.len() == pre.jobs@.len(),
        mid.jobs@[a].id == pre.jobs@[a].id,
        all_stopped(mid.jobs@[a].members@),
        post.fg == Some(pre.jobs@[a].pgid),
        r2.action == Action::Resume(pre.jobs@[a].pgid),
{
    let pid = pre.jobs@[a].members@[x].pid;
    let ms = pre.jobs@[a].members@.update(x, Member { pid, state: ProcState::Stopped });
    assert(settled(pre, a, ms, mid, r1));
    assert(all_stopped(ms));
    assert(mid.jobs@[a].members@ == ms);
    assert(id_used(mid.jobs@, pre.jobs@[a].id));
    let b = choose|b: int| 0 <= b < mid.jobs@.len() && #[trigger] mid.jobs@[b].id == pre.jobs@[a].id
        && {
            let job = mid.jobs@[b];
            &&& post == Worker { exit_val: 1, fg: Some(job.pgid), ..mid }
            &&& r2 == Step { notice: Notice::Resumed(pre.jobs@[a].id, job.line), action: Action::Resume(job.pgid) }
        };
    if b != a {
        assert(mid.jobs@[b] == pre.jobs@[b]);
        assert(pre.jobs@[b].id != pre.jobs@[a].id) by {
            if b < a {
                assert(pre.jobs@[b].id < pre.jobs@[a].id);
            } else {
                assert(pre.jobs@[a].id < pre.jobs@[b].id);
            }
        }
    }
}

/// `cd` with an argument goes to that argument; without one it goes to
/// the home directory when one is known.
pub proof fn lemma_cd_destination(args: Seq<Seq<char>>, home: Seq<char>)
    ensures
        args.len() >= 2 ==> forall|h: Option<Seq<char>>| #[trigger] cd_dir(args, h) == args[1],
        args.len() < 2 ==> cd_dir(args, Some(home)) == home,
{
}

} // verus!
