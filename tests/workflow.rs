use takus::task::Task;
use takus::workflow::{Workflow, WorkflowError};

fn new_task(deps: Vec<String>) -> Task {
    Task::new(vec![], deps, None, vec![])
}

fn names(v: &[&str]) -> Vec<String> {
    v.iter().map(|s| s.to_string()).collect()
}

fn example() -> Workflow {
    let mut m = Workflow::new("1".to_string());
    m.add_task("A".to_string(), new_task(names(&["B"])));
    m.add_task("B".to_string(), new_task(names(&["E", "C"])));
    m.add_task("C".to_string(), new_task(names(&["D"])));
    m.add_task("D".to_string(), new_task(names(&["E"])));
    m.add_task("E".to_string(), new_task(vec![]));
    m
}

#[test]
fn test_select() {
    let t_e = new_task(vec![]);
    let t_d = new_task(vec!["E".to_string()]);
    let t_c = new_task(vec!["D".to_string()]);
    let t_b = new_task(vec!["E".to_string(), "C".to_string()]);
    let t_a = new_task(vec!["B".to_string()]);

    let mut m = Workflow::new("1".to_string());
    m.add_task("A".to_string(), t_a);
    m.add_task("B".to_string(), t_b);
    m.add_task("C".to_string(), t_c);
    m.add_task("D".to_string(), t_d);
    m.add_task("E".to_string(), t_e);
    let result = m.select(&"C".to_string());
    assert!(result.is_ok());
    let map = result.unwrap();
    assert_eq!(map.len(), 3);
    assert!(map.contains(&"C".to_string()));
    assert!(map.contains(&"D".to_string()));
    assert!(map.contains(&"E".to_string()));
}

#[test]
fn test_order() {
    let t_e = new_task(vec![]);
    let t_d = new_task(vec!["E".to_string()]);
    let t_c = new_task(vec!["D".to_string()]);
    let t_b = new_task(vec!["E".to_string(), "C".to_string()]);
    let t_a = new_task(vec!["B".to_string()]);

    let mut m = Workflow::new("1".to_string());
    m.add_task("A".to_string(), t_a);
    m.add_task("B".to_string(), t_b);
    m.add_task("C".to_string(), t_c);
    m.add_task("D".to_string(), t_d);
    m.add_task("E".to_string(), t_e);
    let all = names(&["A", "B", "C", "D", "E"]);
    let ord = m.order(&all).unwrap();
    assert_eq!(
        ord,
        vec![
            "E".to_string(),
            "D".to_string(),
            "C".to_string(),
            "B".to_string(),
            "A".to_string()
        ]
    );
}

#[test]
fn select_is_idempotent_on_diamond() {
    let m = example();
    let first = m.select(&"A".to_string()).unwrap();
    let second = m.select(&"A".to_string()).unwrap();
    assert_eq!(first, second);
    assert_eq!(first.len(), 5);
    assert_eq!(first.iter().filter(|n| n.as_str() == "E").count(), 1);
}

#[test]
fn select_excludes_unreachable_tasks() {
    let m = example();
    let sel = m.select(&"B".to_string()).unwrap();
    assert_eq!(sel, names(&["B", "C", "D", "E"]));
    let sel = m.select(&"E".to_string()).unwrap();
    assert_eq!(sel, names(&["E"]));
}

#[test]
fn select_unknown_task_fails() {
    let m = example();
    match m.select(&"Z".to_string()) {
        Err(WorkflowError::TaskNotFound(n)) => assert_eq!(n, "Z"),
        other => panic!("unexpected {:?}", other),
    }
}

#[test]
fn select_ignores_dangling_dependency() {
    let mut m = Workflow::new("1".to_string());
    m.add_task("A".to_string(), new_task(names(&["missing", "B"])));
    m.add_task("B".to_string(), new_task(vec![]));
    assert_eq!(m.select(&"A".to_string()).unwrap(), names(&["A", "B"]));
    assert_eq!(m.plan(&"A".to_string()).unwrap(), names(&["B", "A"]));
}

#[test]
fn plan_orders_closure() {
    let m = example();
    assert_eq!(m.plan(&"A".to_string()).unwrap(), names(&["E", "D", "C", "B", "A"]));
    assert_eq!(m.plan(&"C".to_string()).unwrap(), names(&["E", "D", "C"]));
    assert!(matches!(
        m.plan(&"nope".to_string()),
        Err(WorkflowError::TaskNotFound(_))
    ));
}

#[test]
fn order_breaks_ties_by_name() {
    let mut m = Workflow::new("1".to_string());
    m.add_task("a".to_string(), new_task(names(&["c"])));
    m.add_task("b".to_string(), new_task(vec![]));
    m.add_task("c".to_string(), new_task(vec![]));
    let ord = m.order(&names(&["c", "a", "b"])).unwrap();
    assert_eq!(ord, names(&["b", "c", "a"]));
}

#[test]
fn order_detects_cycle() {
    let mut m = Workflow::new("1".to_string());
    m.add_task("A".to_string(), new_task(names(&["B"])));
    m.add_task("B".to_string(), new_task(names(&["A"])));
    let sel = m.select(&"A".to_string()).unwrap();
    assert_eq!(sel.len(), 2);
    match m.order(&sel) {
        Err(WorkflowError::CyclicDependency(rest)) => assert_eq!(rest, names(&["A", "B"])),
        other => panic!("unexpected {:?}", other),
    }
    assert!(matches!(
        m.plan(&"B".to_string()),
        Err(WorkflowError::CyclicDependency(_))
    ));
}

#[test]
fn order_detects_self_dependency() {
    let mut m = Workflow::new("1".to_string());
    m.add_task("A".to_string(), new_task(names(&["A"])));
    m.add_task("B".to_string(), new_task(vec![]));
    match m.order(&names(&["A", "B"])) {
        Err(WorkflowError::CyclicDependency(rest)) => assert_eq!(rest, names(&["A"])),
        other => panic!("unexpected {:?}", other),
    }
}

#[test]
fn order_unknown_name_fails() {
    let m = example();
    match m.order(&names(&["A", "Q"])) {
        Err(WorkflowError::TaskNotFound(n)) => assert_eq!(n, "Q"),
        other => panic!("unexpected {:?}", other),
    }
}

#[test]
fn order_of_empty_selection_is_empty() {
    let m = example();
    assert_eq!(m.order(&vec![]).unwrap(), Vec::<String>::new());
}

#[test]
fn add_task_replaces_same_name() {
    let mut m = example();
    m.add_task("A".to_string(), new_task(vec![]));
    assert_eq!(m.select(&"A".to_string()).unwrap(), names(&["A"]));
    assert_eq!(m.version(), "1");
    assert!(m.task(&"A".to_string()).unwrap().deps().is_empty());
    assert!(m.task(&"X".to_string()).is_none());
}

#[test]
fn registry_order_does_not_depend_on_insertion_order() {
    let mut m = Workflow::new("1".to_string());
    m.add_task("E".to_string(), new_task(vec![]));
    m.add_task("D".to_string(), new_task(names(&["E"])));
    m.add_task("C".to_string(), new_task(names(&["D"])));
    m.add_task("B".to_string(), new_task(names(&["E", "C"])));
    m.add_task("A".to_string(), new_task(names(&["B"])));
    assert_eq!(m.select(&"B".to_string()).unwrap(), names(&["B", "C", "D", "E"]));
    let ord = m.order(&names(&["A", "B", "C", "D", "E"])).unwrap();
    assert_eq!(ord, names(&["E", "D", "C", "B", "A"]));
}

#[test]
fn independent_tasks_come_out_by_name() {
    let mut m = Workflow::new("1".to_string());
    m.add_task("zeta".to_string(), new_task(vec![]));
    m.add_task("alpha".to_string(), new_task(vec![]));
    m.add_task("mid".to_string(), new_task(names(&["zeta", "alpha"])));
    assert_eq!(m.plan(&"mid".to_string()).unwrap(), names(&["alpha", "zeta", "mid"]));
}

#[test]
fn find_gives_position_in_name_order() {
    let m = example();
    assert_eq!(m.find(&"A".to_string()), Some(0));
    assert_eq!(m.find(&"E".to_string()), Some(4));
    assert_eq!(m.find(&"F".to_string()), None);
}
