//! A task and the decisions that drive its execution: which shell command
//! runs next, where, with which environment, and when to stop.
use vstd::prelude::*;

use crate::state::GlobalState;

verus! {

/// The shell that interprets each command string.
pub const SHELL: &'static str = "sh";

/// The shell flag that takes the command string as its argument.
pub const SHELL_COMMAND_FLAG: &'static str = "-c";

/// The views of a list of strings.
pub open spec fn views(v: Seq<String>) -> Seq<Seq<char>> {
    v.map_values(|s: String| s@)
}

/// The views of a list of environment entries.
pub open spec fn env_views(v: Seq<(String, String)>) -> Seq<(Seq<char>, Seq<char>)> {
    v.map_values(|e: (String, String)| (e.0@, e.1@))
}

/// One unit of work: shell commands run in sequence, the names of the tasks
/// it depends on, an optional working directory and environment overrides.
#[derive(Debug)]
pub struct Task {
    cmds: Vec<String>,
    deps: Vec<String>,
    dir: Option<String>,
    envs: Vec<(String, String)>,
}

/// One subprocess to spawn: `program` with `args`, in `dir`, with the parent
/// environment overridden by `envs` (a later entry wins over an earlier one).
#[derive(Debug)]
pub struct Invocation {
    pub program: String,
    pub args: Vec<String>,
    pub dir: String,
    pub envs: Vec<(String, String)>,
}

/// Where the execution of one task stands: how many commands were started,
/// and whether the last one failed.
#[derive(Debug)]
pub struct TaskRun {
    next: usize,
    failed: bool,
}

/// What the executor of a task does next.
#[derive(Debug)]
pub enum Step {
    /// Spawn this subprocess and report whether it succeeded.
    Spawn(Invocation),
    /// Every command succeeded.
    Finished,
    /// The command at this index failed; nothing more runs.
    Failed(usize),
}

impl TaskRun {
    pub closed spec fn spec_next(&self) -> nat {
        self.next as nat
    }

    pub closed spec fn spec_failed(&self) -> bool {
        self.failed
    }

    /// A failure is always the failure of a command that was started.
    pub open spec fn wf(&self) -> bool {
        self.spec_failed() ==> self.spec_next() >= 1
    }

    /// The state before any command has run.
    pub fn start() -> (r: TaskRun)
        ensures
            r.wf(),
            r.spec_next() == 0,
            !r.spec_failed(),
    {
        TaskRun { next: 0, failed: false }
    }

    /// Index of the next command to start.
    pub fn next(&self) -> (r: usize)
        ensures
            r == self.spec_next(),
    {
        self.next
    }

    /// Whether a command has failed.
    pub fn failed(&self) -> (r: bool)
        ensures
            r == self.spec_failed(),
    {
        self.failed
    }
}

impl Task {
    pub closed spec fn spec_cmds(&self) -> Seq<Seq<char>> {
        views(self.cmds@)
    }

    pub closed spec fn spec_deps(&self) -> Seq<Seq<char>> {
        views(self.deps@)
    }

    pub closed spec fn spec_dir(&self) -> Option<Seq<char>> {
        match self.dir {
            Some(d) => Some(d@),
            None => None,
        }
    }

    pub closed spec fn spec_envs(&self) -> Seq<(Seq<char>, Seq<char>)> {
        env_views(self.envs@)
    }

    /// The directory the task's commands run in under the context `gs`.
    pub open spec fn run_dir(&self, gs: GlobalState) -> Seq<char> {
        match self.spec_dir() {
            Some(d) => d,
            None => gs.spec_working_dir(),
        }
    }

    /// `inv` runs command `i` of the task through the shell, in its
    /// directory, with its environment overrides.
    pub open spec fn is_invocation(&self, gs: GlobalState, i: int, inv: Invocation) -> bool {
        &&& inv.program@ == SHELL@
        &&& views(inv.args@) == seq![SHELL_COMMAND_FLAG@, self.spec_cmds()[i]]
        &&& inv.dir@ == self.run_dir(gs)
        &&& env_views(inv.envs@) == self.spec_envs()
    }

    pub fn new(
        cmds: Vec<String>,
        deps: Vec<String>,
        dir: Option<String>,
        envs: Vec<(String, String)>,
    ) -> (r: Task)
        ensures
            r.spec_cmds() == views(cmds@),
            r.spec_deps() == views(deps@),
            r.spec_dir() == (match dir {
                Some(d) => Some(d@),
                None => None::<Seq<char>>,
            }),
            r.spec_envs() == env_views(envs@),
    {
        Task { cmds, deps, dir, envs }
    }

    pub fn cmds(&self) -> (r: &Vec<String>)
        ensures
            views(r@) == self.spec_cmds(),
    {
        &self.cmds
    }

    pub fn deps(&self) -> (r: &Vec<String>)
        ensures
            views(r@) == self.spec_deps(),
    {
        &self.deps
    }

    pub fn dir(&self) -> (r: &Option<String>)
        ensures
            r.is_some() == self.spec_dir().is_some(),
            r.is_some() ==> r.unwrap()@ == self.spec_dir().unwrap(),
    {
        &self.dir
    }

    pub fn envs(&self) -> (r: &Vec<(String, String)>)
        ensures
            env_views(r@) == self.spec_envs(),
    {
        &self.envs
    }

    /// The subprocess that runs command `i` under the context `gs`.
    pub fn invocation(&self, gs: &GlobalState, i: usize) -> (r: Invocation)
        requires
            i < self.spec_cmds().len(),
        ensures
            self.is_invocation(*gs, i as int, r),
    {
        let dir = match &self.dir {
            Some(d) => d.clone(),
            None => gs.working_dir().clone(),
        };
        let mut envs: Vec<(String, String)> = Vec::new();
        let mut k: usize = 0;
        while k < self.envs.len()
            invariant
                k <= self.envs@.len(),
                envs@.len() == k,
                env_views(envs@) == env_views(self.envs@).subrange(0, k as int),
            decreases self.envs@.len() - k,
        {
            let e = &self.envs[k];
            let key = e.0.clone();
            let value = e.1.clone();
            let ghost before = envs@;
            envs.push((key, value));
            proof {
                assert(envs@ == before.push((key, value)));
                assert(env_views(envs@)[k as int] == env_views(self.envs@)[k as int]);
                assert(env_views(envs@) =~= env_views(self.envs@).subrange(0, k + 1));
            }
            k = k + 1;
        }
        proof {
            assert(env_views(envs@) =~= env_views(self.envs@));
        }
        let args: Vec<String> = vec![SHELL_COMMAND_FLAG.to_owned(), self.cmds[i].clone()];
        proof {
            assert(views(args@) =~= seq![SHELL_COMMAND_FLAG@, self.spec_cmds()[i as int]]);
        }
        Invocation { program: SHELL.to_owned(), args, dir, envs }
    }
}

impl Task {
    /// What the executor does next from the state `run`: after a failure it
    /// stops and names the failed command; otherwise it starts the next
    /// command, or finishes once every command has succeeded.
    pub open spec fn step_matches(&self, gs: GlobalState, run: TaskRun, r: Step) -> bool {
        if run.spec_failed() {
            r == Step::Failed((run.spec_next() - 1) as usize)
        } else if run.spec_next() == self.spec_cmds().len() {
            r == Step::Finished
        } else {
            r matches Step::Spawn(inv) && self.is_invocation(gs, run.spec_next() as int, inv)
        }
    }

    /// Decides the next step in executing the task.
    pub fn next_step(&self, gs: &GlobalState, run: &TaskRun) -> (r: Step)
        requires
            run.wf(),
            run.spec_next() <= self.spec_cmds().len(),
        ensures
            self.step_matches(*gs, *run, r),
    {
        if run.failed {
            Step::Failed(run.next - 1)
        } else if run.next == self.cmds.len() {
            Step::Finished
        } else {
            Step::Spawn(self.invocation(gs, run.next))
        }
    }

    /// The state after the command that `run` started has exited, successfully
    /// or not.
    pub fn record(&self, run: &TaskRun, success: bool) -> (r: TaskRun)
        requires
            run.wf(),
            !run.spec_failed(),
            run.spec_next() < self.spec_cmds().len(),
        ensures
            r.wf(),
            r.spec_next() == run.spec_next() + 1,
            r.spec_failed() == !success,
    {
        let n = self.cmds.len();
        assert(self.spec_cmds().len() == n);
        TaskRun { next: run.next + 1, failed: !success }
    }
}

/// Once a command has failed, the executor starts no further command: from
/// the state that `record` gives after the failure of the command started at
/// `run`, the only step is the failure of that same command.
pub proof fn lemma_failure_stops(task: Task, gs: GlobalState, run: TaskRun, after: TaskRun)
    requires
        run.wf(),
        !run.spec_failed(),
        run.spec_next() < task.spec_cmds().len(),
        after.spec_next() == run.spec_next() + 1,
        after.spec_failed(),
    ensures
        forall|r: Step| #[trigger]
            task.step_matches(gs, after, r) <==> r == Step::Failed(run.spec_next() as usize),
{
}

} // verus!
