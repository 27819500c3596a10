use rusk::digraph::{Forest, TreeNode, TreeNodeCreationError};
use rusk::executor::{Executor, RunStatus, TaskState};
use rusk::path::NormarizedPath;
use rusk::rusk::Task;
use rusk::taskkey::{PhonyTaskString, TaskKey};

fn key(name: &str) -> TaskKey {
    TaskKey::Phony(PhonyTaskString::try_from(name.to_string()).ok().unwrap())
}

fn task(deps: &[&str]) -> Task {
    Task {
        envs: vec![],
        script: None,
        cwd: NormarizedPath::from_absolute("/work"),
        depends: deps.iter().map(|d| key(d)).collect(),
        description: None,
    }
}

fn defs(spec: &[(&str, &[&str])]) -> Vec<(TaskKey, Task)> {
    spec.iter().map(|(n, d)| (key(n), task(d))).collect()
}

fn build(spec: &[(&str, &[&str])], targets: &[&str]) -> Result<Forest<Task>, TreeNodeCreationError> {
    TreeNode::new_vec(defs(spec), targets.iter().map(|t| key(t)).collect())
}

fn node_of(f: &Forest<Task>, name: &str) -> usize {
    f.nodes.iter().position(|n| n.key.as_str() == name).unwrap()
}

/// Runs the forest to the end, every script ending with the code `code_of`
/// gives it; returns the order in which nodes started and the final status.
fn run(f: &Forest<Task>, code_of: &dyn Fn(&str) -> i32) -> (Vec<String>, RunStatus) {
    let mut ex = Executor::new(f);
    let mut order = vec![];
    loop {
        let mut batch = vec![];
        while let Some(i) = ex.next_task() {
            order.push(f.nodes[i].key.as_str().to_string());
            batch.push(i);
        }
        if batch.is_empty() {
            return (order, ex.status());
        }
        for i in batch {
            ex.finish(i, code_of(f.nodes[i].key.as_str()));
        }
    }
}

#[test]
fn single_task_tree() {
    let f = build(&[("hello", &[])], &["hello"]).ok().unwrap();
    assert_eq!(f.nodes.len(), 1);
    assert_eq!(f.roots, vec![0]);
    let (order, status) = run(&f, &|_| 0);
    assert_eq!(order, vec!["hello".to_string()]);
    assert_eq!(status, RunStatus::Succeeded);
}

#[test]
fn linear_chain_runs_dependency_first() {
    let f = build(&[("a", &["b"]), ("b", &[])], &["a"]).ok().unwrap();
    assert_eq!(f.nodes.len(), 2);
    let a = node_of(&f, "a");
    let b = node_of(&f, "b");
    assert_eq!(f.nodes[a].children, vec![b]);
    assert!(b < a);
    let (order, status) = run(&f, &|_| 0);
    assert_eq!(order, vec!["b".to_string(), "a".to_string()]);
    assert_eq!(status, RunStatus::Succeeded);
}

#[test]
fn diamond_shares_bottom_node() {
    let f = build(
        &[("top", &["l", "r"]), ("l", &["bot"]), ("r", &["bot"]), ("bot", &[])],
        &["top"],
    )
    .ok()
    .unwrap();
    assert_eq!(f.nodes.len(), 4);
    let l = node_of(&f, "l");
    let r = node_of(&f, "r");
    assert_eq!(f.nodes[l].children, f.nodes[r].children);
    let (order, status) = run(&f, &|_| 0);
    assert_eq!(order.iter().filter(|k| k.as_str() == "bot").count(), 1);
    assert_eq!(order[0], "bot");
    assert_eq!(order[3], "top");
    assert_eq!(status, RunStatus::Succeeded);
}

#[test]
fn three_parents_share_one_child() {
    let f = build(
        &[("left", &["b"]), ("mid", &["b"]), ("right", &["b"]), ("b", &[])],
        &["left", "mid", "right"],
    )
    .ok()
    .unwrap();
    assert_eq!(f.nodes.len(), 4);
    let b = node_of(&f, "b");
    for p in ["left", "mid", "right"] {
        assert_eq!(f.nodes[node_of(&f, p)].children, vec![b]);
    }
    let (order, status) = run(&f, &|_| 0);
    assert_eq!(order.iter().filter(|k| k.as_str() == "b").count(), 1);
    assert_eq!(status, RunStatus::Succeeded);
}

#[test]
fn cycle_is_refused() {
    match build(&[("x", &["y"]), ("y", &["x"])], &["x"]) {
        Err(TreeNodeCreationError::CircularDependency(k)) => {
            assert!(k.as_str() == "x" || k.as_str() == "y")
        }
        _ => panic!("expected a circular dependency"),
    }
}

#[test]
fn self_loop_is_refused() {
    assert!(matches!(
        build(&[("x", &["x"])], &["x"]),
        Err(TreeNodeCreationError::CircularDependency(_))
    ));
}

#[test]
fn unreached_cycle_is_ignored() {
    let f = build(&[("a", &[]), ("x", &["y"]), ("y", &["x"])], &["a"]).ok().unwrap();
    assert_eq!(f.nodes.len(), 1);
}

#[test]
fn missing_dependency_is_refused() {
    match build(&[("a", &["ghost"])], &["a"]) {
        Err(TreeNodeCreationError::ItemNotFound(k)) => assert_eq!(k.as_str(), "ghost"),
        _ => panic!("expected a missing item"),
    }
}

#[test]
fn missing_target_is_refused() {
    match build(&[("a", &[])], &["nope"]) {
        Err(TreeNodeCreationError::ItemNotFound(k)) => assert_eq!(k.as_str(), "nope"),
        _ => panic!("expected a missing item"),
    }
}

#[test]
fn repeated_target_gives_one_root_each() {
    let f = build(&[("a", &["b"]), ("b", &[])], &["a", "b", "a"]).ok().unwrap();
    assert_eq!(f.nodes.len(), 2);
    assert_eq!(f.roots.len(), 3);
    assert_eq!(f.roots[0], f.roots[2]);
    assert_eq!(f.nodes[f.roots[1]].key.as_str(), "b");
}

#[test]
fn sibling_paths_are_not_cycles() {
    let f = build(&[("a", &["b", "c"]), ("b", &["c"]), ("c", &[])], &["a"]).ok().unwrap();
    assert_eq!(f.nodes.len(), 3);
}

#[test]
fn failure_stops_new_tasks() {
    let f = build(&[("a", &["b"]), ("b", &[])], &["a"]).ok().unwrap();
    let (order, status) = run(&f, &|k| if k == "b" { 2 } else { 0 });
    assert_eq!(order, vec!["b".to_string()]);
    assert_eq!(status, RunStatus::Failed(node_of(&f, "b"), 2));
}

#[test]
fn first_failure_is_kept() {
    let f = build(&[("a", &[]), ("b", &[]), ("c", &["a", "b"])], &["c"]).ok().unwrap();
    let mut ex = Executor::new(&f);
    let i = ex.next_task().unwrap();
    let j = ex.next_task().unwrap();
    assert!(i < j);
    assert_eq!(ex.next_task(), None);
    ex.finish(i, 3);
    assert_eq!(ex.status(), RunStatus::Failed(i, 3));
    ex.finish(j, 4);
    assert_eq!(ex.status(), RunStatus::Failed(i, 3));
    assert_eq!(ex.next_task(), None);
}

#[test]
fn pending_while_running() {
    let f = build(&[("a", &[])], &["a"]).ok().unwrap();
    let mut ex = Executor::new(&f);
    assert_eq!(ex.status(), RunStatus::Pending);
    let i = ex.next_task().unwrap();
    assert_eq!(ex.next_task(), None);
    assert_eq!(ex.status(), RunStatus::Pending);
    ex.finish(i, 0);
    assert_eq!(ex.status(), RunStatus::Succeeded);
    assert_eq!(ex.children_of(i).len(), 0);
    let _ = TaskState::Initialized;
}
