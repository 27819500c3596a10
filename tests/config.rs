use rusk::digraph::TreeNodeCreationError;
use rusk::path::NormarizedPath;
use rusk::rusk::{into_executable, merge_envs, ExecuteOpts, Rusk, RuskError, Task, TaskParseError};
use rusk::ruskfile::{
    sort_items, RuskfileComposer, RuskfileContent, RuskfileConvertError, TaskEntry, TaskListItemContent,
    TasksListItem,
};
use rusk::taskkey::{PhonyTaskString, TaskKey, TaskKeyParseError, TaskKeyRelative};

fn entry(name: &str, script: Option<&str>, deps: &[&str]) -> TaskEntry {
    TaskEntry {
        name: PhonyTaskString::try_from(name.to_string()).ok().unwrap(),
        description: None,
        script: script.map(|s| s.to_string()),
        depends: deps
            .iter()
            .map(|d| TaskKeyRelative::try_from(d.to_string()).ok().unwrap())
            .collect(),
        envs: vec![],
        cwd: ".".to_string(),
    }
}

fn file(path: &str, tasks: Vec<TaskEntry>) -> (NormarizedPath, Result<RuskfileContent, String>) {
    (NormarizedPath::from_absolute(path), Ok(RuskfileContent { tasks }))
}

fn composer(files: Vec<(NormarizedPath, Result<RuskfileContent, String>)>) -> RuskfileComposer {
    let mut c = RuskfileComposer::new();
    for (p, r) in files {
        c.insert(p, r);
    }
    c
}

fn pairs(v: &[(&str, &str)]) -> Vec<(String, String)> {
    v.iter().map(|(a, b)| (a.to_string(), b.to_string())).collect()
}

#[test]
fn duplicate_definition_is_refused() {
    let c = composer(vec![
        file("/p/rusk.toml", vec![entry("t", Some("echo 1"), &[])]),
        file("/p/sub/rusk.toml", vec![entry("t", Some("echo 2"), &[])]),
    ]);
    match c.try_into_task_map() {
        Err(RuskfileConvertError::DuplicatedTaskName(n)) => assert_eq!(n, "t"),
        Ok(_) => panic!("expected a duplicate"),
    }
}

#[test]
fn conversion_keeps_fields_and_resolves_paths() {
    let mut e = entry("build", Some("echo hi"), &["prep", "../gen/out.txt"]);
    e.description = Some("Build it".to_string());
    e.envs = pairs(&[("MODE", "fast")]);
    e.cwd = "./src".to_string();
    let c = composer(vec![
        file("/p/sub/rusk.toml", vec![e]),
        (NormarizedPath::from_absolute("/p/bad/rusk.toml"), Err("parse error".to_string())),
        file("/p/.rusk.toml", vec![entry("prep", None, &[])]),
    ]);
    let map = c.try_into_task_map().ok().unwrap();
    assert_eq!(map.len(), 2);
    let (k, t) = &map[0];
    assert!(matches!(k, TaskKey::Phony(_)));
    assert_eq!(k.as_str(), "build");
    assert_eq!(t.script.as_deref(), Some("echo hi"));
    assert_eq!(t.description.as_deref(), Some("Build it"));
    assert_eq!(t.envs, pairs(&[("MODE", "fast")]));
    assert_eq!(t.cwd.as_abs_str(), "/p/sub/src");
    assert_eq!(t.depends.len(), 2);
    assert_eq!(t.depends[0].as_str(), "prep");
    assert!(matches!(t.depends[1], TaskKey::File(_)));
    assert_eq!(t.depends[1].as_str(), "/p/gen/out.txt");
    assert_eq!(map[1].0.as_str(), "prep");
    assert_eq!(map[1].1.cwd.as_abs_str(), "/p");
}

#[test]
fn composer_replaces_same_path() {
    let c = composer(vec![
        file("/p/rusk.toml", vec![entry("old", None, &[])]),
        file("/p/rusk.toml", vec![entry("new", None, &[])]),
    ]);
    let list = c.tasks_list();
    assert_eq!(list.len(), 1);
    match &list[0].content {
        Ok(item) => assert_eq!(item.name, "new"),
        Err(_) => panic!("expected a task"),
    }
}

fn names(items: &[TasksListItem]) -> Vec<String> {
    items
        .iter()
        .map(|i| match &i.content {
            Ok(c) => format!("{}@{}", c.name, i.path.as_abs_str()),
            Err(m) => format!("!{}@{}", m, i.path.as_abs_str()),
        })
        .collect()
}

#[test]
fn listing_is_sorted_by_name_then_path() {
    let c = composer(vec![
        file("/p/z/rusk.toml", vec![entry("b", None, &[]), entry("a", None, &[])]),
        file("/p/a/rusk.toml", vec![entry("b", None, &[])]),
        (NormarizedPath::from_absolute("/p/e/rusk.toml"), Err("oops".to_string())),
    ]);
    let mut items = c.tasks_list();
    items.extend(c.errors_list());
    let sorted = sort_items(items);
    assert_eq!(
        names(&sorted),
        vec![
            "a@/p/z/rusk.toml".to_string(),
            "b@/p/a/rusk.toml".to_string(),
            "b@/p/z/rusk.toml".to_string(),
            "!oops@/p/e/rusk.toml".to_string(),
        ]
    );
}

#[test]
fn listing_carries_descriptions() {
    let mut e = entry("doc", None, &[]);
    e.description = Some("Writes docs".to_string());
    let c = composer(vec![file("/p/rusk.toml", vec![e])]);
    let list = c.tasks_list();
    match &list[0].content {
        Ok(TaskListItemContent { name, description }) => {
            assert_eq!(name, "doc");
            assert_eq!(description.as_deref(), Some("Writes docs"));
        }
        Err(_) => panic!("expected a task"),
    }
    assert_eq!(c.errors_list().len(), 0);
}

#[test]
fn task_envs_override_global() {
    let merged = merge_envs(&pairs(&[("A", "1"), ("B", "2")]), &pairs(&[("B", "3"), ("C", "4")]));
    let mut m = merged.clone();
    m.sort();
    assert_eq!(m, pairs(&[("A", "1"), ("B", "3"), ("C", "4")]));
    let merged = merge_envs(&pairs(&[("A", "1"), ("A", "2")]), &vec![]);
    assert_eq!(merged, pairs(&[("A", "2")]));
}

fn simple_task(script: Option<&str>) -> Task {
    Task {
        envs: pairs(&[("X", "task")]),
        script: script.map(|s| s.to_string()),
        cwd: NormarizedPath::from_absolute("/work"),
        depends: vec![],
        description: None,
    }
}

fn pkey(n: &str) -> TaskKey {
    TaskKey::Phony(PhonyTaskString::try_from(n.to_string()).ok().unwrap())
}

#[test]
fn scripts_parse_line_by_line() {
    let opts = ExecuteOpts { envs: pairs(&[("X", "global"), ("Y", "g")]) };
    let tasks = vec![
        (pkey("one"), simple_task(Some("echo hi"))),
        (pkey("two"), simple_task(Some("echo A\necho B"))),
        (pkey("none"), simple_task(None)),
        (pkey("empty"), simple_task(Some(""))),
    ];
    let v = into_executable(tasks, &opts, &vec![true; 4]).ok().unwrap();
    assert_eq!(v.len(), 4);
    assert_eq!(v[0].1.script.len(), 1);
    assert_eq!(v[1].1.script.len(), 2);
    assert_eq!(v[2].1.script.len(), 0);
    assert_eq!(v[3].1.script.len(), 0);
    let mut envs = v[0].1.envs.clone();
    envs.sort();
    assert_eq!(envs, pairs(&[("X", "task"), ("Y", "g")]));
    assert_eq!(v[1].1.task_name.as_str(), "two");
}

#[test]
fn script_parse_error_names_task() {
    let opts = ExecuteOpts { envs: vec![] };
    let tasks = vec![
        (pkey("good"), simple_task(Some("echo ok"))),
        (pkey("bad"), simple_task(Some("echo 'open"))),
    ];
    match into_executable(tasks, &opts, &vec![true, true]) {
        Err(TaskParseError::ScriptParseError { task_name, .. }) => assert_eq!(task_name.as_str(), "bad"),
        _ => panic!("expected a parse error"),
    }
}

#[test]
fn blank_line_in_script_is_refused() {
    let opts = ExecuteOpts { envs: vec![] };
    let tasks = vec![(pkey("gap"), simple_task(Some("echo a\n\necho b")))];
    assert!(matches!(
        into_executable(tasks, &opts, &vec![true]),
        Err(TaskParseError::ScriptParseError { .. })
    ));
}

#[test]
fn missing_directory_is_refused() {
    let opts = ExecuteOpts { envs: vec![] };
    let tasks = vec![(pkey("t"), simple_task(Some("echo ok")))];
    match into_executable(tasks, &opts, &vec![false]) {
        Err(TaskParseError::DirectoryNotFound(p)) => assert_eq!(p.as_abs_str(), "/work"),
        _ => panic!("expected a missing directory"),
    }
}

fn rusk_of(files: Vec<(NormarizedPath, Result<RuskfileContent, String>)>) -> Rusk {
    Rusk::try_from(composer(files)).ok().unwrap()
}

#[test]
fn plan_single_task() {
    let r = rusk_of(vec![file("/p/rusk.toml", vec![entry("hello", Some("echo hi"), &[])])]);
    let n = r.tasks.len();
    let f = r
        .plan(vec!["hello".to_string()], &NormarizedPath::from_absolute("/p"), &ExecuteOpts { envs: vec![] }, &vec![true; n])
        .ok()
        .unwrap();
    assert_eq!(f.nodes.len(), 1);
    assert_eq!(f.nodes[0].item.script.len(), 1);
    assert_eq!(f.nodes[0].item.cwd.as_abs_str(), "/p");
}

#[test]
fn plan_refuses_cycle() {
    let r = rusk_of(vec![file(
        "/p/rusk.toml",
        vec![entry("x", Some("echo x"), &["y"]), entry("y", Some("echo y"), &["x"])],
    )]);
    let n = r.tasks.len();
    match r.plan(vec!["x".to_string()], &NormarizedPath::from_absolute("/p"), &ExecuteOpts { envs: vec![] }, &vec![true; n]) {
        Err(RuskError::TreeNodeBroken(TreeNodeCreationError::CircularDependency(k))) => {
            assert!(k.as_str() == "x" || k.as_str() == "y")
        }
        _ => panic!("expected a cycle"),
    }
}

#[test]
fn plan_refuses_bad_argument() {
    let r = rusk_of(vec![file("/p/rusk.toml", vec![entry("a", Some("echo a"), &[])])]);
    let n = r.tasks.len();
    assert!(matches!(
        r.plan(vec!["no good".to_string()], &NormarizedPath::from_absolute("/p"), &ExecuteOpts { envs: vec![] }, &vec![true; n]),
        Err(RuskError::InvalidTaskKey(TaskKeyParseError::Phony(_)))
    ));
}

#[test]
fn plan_resolves_file_targets_against_cwd() {
    let r = rusk_of(vec![file("/p/rusk.toml", vec![entry("a", Some("echo a"), &[])])]);
    let n = r.tasks.len();
    match r.plan(vec!["./out.bin".to_string()], &NormarizedPath::from_absolute("/p/q"), &ExecuteOpts { envs: vec![] }, &vec![true; n]) {
        Err(RuskError::TreeNodeBroken(TreeNodeCreationError::ItemNotFound(k))) => {
            assert_eq!(k.as_str(), "/p/q/out.bin")
        }
        _ => panic!("expected a missing item"),
    }
}

#[test]
fn ruskfile_names() {
    assert!(rusk::ruskfile::is_ruskfile("rusk.toml"));
    assert!(rusk::ruskfile::is_ruskfile(".rusk.toml"));
    assert!(!rusk::ruskfile::is_ruskfile("Rusk.toml"));
    assert!(!rusk::ruskfile::is_ruskfile("rusk.toml.bak"));
}

#[test]
fn exit_codes() {
    let failed = RuskError::TaskFailed(rusk::rusk::TaskError { task_name: pkey("b"), exit_code: 2 });
    assert_eq!(failed.exit_code(), 2);
    assert_eq!(RuskError::InvalidTaskKey(TaskKeyParseError::Empty).exit_code(), 1);
    assert_eq!(
        RuskError::TreeNodeBroken(TreeNodeCreationError::CircularDependency(pkey("x"))).exit_code(),
        1
    );
}

#[test]
fn first_repeated_name_is_reported() {
    let c = composer(vec![
        file("/p/rusk.toml", vec![entry("a", None, &[]), entry("b", None, &[])]),
        file("/p/q/rusk.toml", vec![entry("b", None, &[]), entry("a", None, &[])]),
    ]);
    match Rusk::try_from(c) {
        Err(RuskfileConvertError::DuplicatedTaskName(n)) => assert_eq!(n, "b"),
        Ok(_) => panic!("expected a duplicate"),
    }
}
