use takus::state::GlobalState;
use takus::task::{Step, Task, TaskRun};

fn cmds(v: &[&str]) -> Vec<String> {
    v.iter().map(|s| s.to_string()).collect()
}

#[test]
fn failure_stops_the_task() {
    let gs = GlobalState::new("/work".to_string());
    let task = Task::new(cmds(&["true", "false", "true"]), vec![], None, vec![]);
    let outcomes = [true, false, true];
    let mut run = TaskRun::start();
    let mut started: Vec<String> = vec![];
    let end = loop {
        match task.next_step(&gs, &run) {
            Step::Spawn(inv) => {
                let i = run.next();
                started.push(inv.args[1].clone());
                run = task.record(&run, outcomes[i]);
            }
            other => break other,
        }
    };
    assert_eq!(started, cmds(&["true", "false"]));
    assert!(matches!(end, Step::Failed(1)));
    assert!(run.failed());
}

#[test]
fn all_commands_succeed() {
    let gs = GlobalState::new("/work".to_string());
    let task = Task::new(cmds(&["echo a", "echo b"]), vec![], None, vec![]);
    let mut run = TaskRun::start();
    let mut count = 0;
    while let Step::Spawn(_) = task.next_step(&gs, &run) {
        run = task.record(&run, true);
        count += 1;
    }
    assert_eq!(count, 2);
    assert!(matches!(task.next_step(&gs, &run), Step::Finished));
}

#[test]
fn empty_task_finishes_at_once() {
    let gs = GlobalState::new("/work".to_string());
    let task = Task::new(vec![], vec![], None, vec![]);
    assert!(matches!(task.next_step(&gs, &TaskRun::start()), Step::Finished));
}

#[test]
fn invocation_uses_task_dir_and_envs() {
    let gs = GlobalState::new("/work".to_string());
    let task = Task::new(
        cmds(&["echo $GREETING"]),
        vec![],
        Some("/tmp/elsewhere".to_string()),
        vec![("GREETING".to_string(), "hi".to_string())],
    );
    let inv = task.invocation(&gs, 0);
    assert_eq!(inv.program, "sh");
    assert_eq!(inv.args, cmds(&["-c", "echo $GREETING"]));
    assert_eq!(inv.dir, "/tmp/elsewhere");
    assert_eq!(inv.envs, vec![("GREETING".to_string(), "hi".to_string())]);
}

#[test]
fn invocation_defaults_to_context_dir() {
    let gs = GlobalState::new("/work".to_string());
    assert_eq!(gs.working_dir(), "/work");
    let task = Task::new(cmds(&["ls", "pwd"]), cmds(&["x"]), None, vec![]);
    match task.next_step(&gs, &TaskRun::start()) {
        Step::Spawn(inv) => {
            assert_eq!(inv.dir, "/work");
            assert_eq!(inv.args, cmds(&["-c", "ls"]));
            assert!(inv.envs.is_empty());
        }
        other => panic!("unexpected {:?}", other),
    }
    assert_eq!(task.deps(), &cmds(&["x"]));
    assert_eq!(task.cmds().len(), 2);
    assert!(task.dir().is_none());
    assert!(task.envs().is_empty());
}
