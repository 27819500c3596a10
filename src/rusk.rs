//! Tasks, their preparation for a run, and the planning of a run.

use vstd::prelude::*;

use deno_task_shell::parser::SequentialList;
use deno_task_shell::ParseError;

use crate::digraph::{builds, graph_of, key_texts, DigraphItem, Forest, TreeNode, TreeNodeCreationError};
use crate::keyindex::{index_contents, KeyIndex};
use crate::path::NormarizedPath;
use crate::ruskfile::{converts, entries, first_duplicate, names_distinct, RuskfileComposer, RuskfileConvertError};
use crate::taskkey::{key_of, parse_key_spec, KeyText, TaskKey, TaskKeyParseError, TaskKeyRelative};
use crate::text::{lines_of, split_lines};

verus! {

/// `deno_task_shell::parser::SequentialList`, a parsed program, carried
/// through without being opened.
#[verifier::external_type_specification]
#[verifier::external_body]
pub struct ExSequentialList(SequentialList);

/// `deno_task_shell::ParseError`, why a line did not parse, carried through
/// without being opened.
#[verifier::external_type_specification]
#[verifier::external_body]
pub struct ExParseError(ParseError);

/// Whether the shell's parser accepts a command line.
pub uninterp spec fn shell_accepts(line: Seq<char>) -> bool;

/// Relies on `deno_task_shell::parser::parse`: it turns a command line into
/// a program or reports why it cannot; a line with no command is refused.
#[verifier::external_body]
fn parse_line(line: &str) -> (r: Result<SequentialList, ParseError>)
    ensures
        r is Ok <==> shell_accepts(line@),
        line@.len() == 0 ==> r is Err,
{
    deno_task_shell::parser::parse(line)
}

/// A task as the configuration defines it, with its keys and directory
/// resolved.
pub struct Task {
    /// Environment variables that apply to the task alone.
    pub envs: Vec<(String, String)>,
    /// The script, one shell command line per line.
    pub script: Option<String>,
    /// The working directory.
    pub cwd: NormarizedPath,
    /// The keys of the tasks that must succeed first.
    pub depends: Vec<TaskKey>,
    /// A line for the listing.
    pub description: Option<String>,
}

impl DigraphItem for Task {
    open spec fn children_spec(&self) -> Seq<KeyText> {
        key_texts(self.depends@)
    }

    fn children(&self) -> (r: &Vec<TaskKey>) {
        &self.depends
    }
}

/// A task ready to run: its script parsed, its environment merged, its
/// directory checked.
pub struct TaskExecutable {
    pub task_name: TaskKey,
    /// Every variable the shell starts with.
    pub envs: Vec<(String, String)>,
    /// The parsed script, one program per line, run one after another.
    pub script: Vec<SequentialList>,
    pub cwd: NormarizedPath,
    pub depends: Vec<TaskKey>,
}

impl DigraphItem for TaskExecutable {
    open spec fn children_spec(&self) -> Seq<KeyText> {
        key_texts(self.depends@)
    }

    fn children(&self) -> (r: &Vec<TaskKey>) {
        &self.depends
    }
}

/// Options that hold for every task of a run.
pub struct ExecuteOpts {
    /// The environment every task starts from.
    pub envs: Vec<(String, String)>,
}

/// Why the tasks could not be prepared.
pub enum TaskParseError {
    /// A task's working directory does not exist.
    DirectoryNotFound(NormarizedPath),
    /// A line of a task's script is not a shell command.
    ScriptParseError { task_name: TaskKey, error: ParseError },
}

/// A task's script ended with a non-zero exit code.
pub struct TaskError {
    pub task_name: TaskKey,
    pub exit_code: i32,
}

/// Why a run failed.
pub enum RuskError {
    InvalidTaskKey(TaskKeyParseError),
    TreeNodeBroken(TreeNodeCreationError),
    TaskUnparsable(TaskParseError),
    TaskFailed(TaskError),
}

impl RuskError {
    /// The exit code of the process after this error: the failed task's own
    /// code, and 1 for every other error.
    pub fn exit_code(&self) -> (r: i32)
        ensures
            r == match self {
                RuskError::TaskFailed(e) => e.exit_code,
                _ => 1i32,
            },
    {
        match self {
            RuskError::TaskFailed(e) => e.exit_code,
            _ => 1,
        }
    }
}

/// The variables a list of assignments leaves: a later one replaces an
/// earlier one of the same name.
pub open spec fn env_map(s: Seq<(String, String)>) -> Map<Seq<char>, Seq<char>>
    decreases s.len(),
{
    if s.len() == 0 {
        Map::empty()
    } else {
        env_map(s.drop_last()).insert(s.last().0@, s.last().1@)
    }
}

/// No name is assigned twice.
pub open spec fn env_names_distinct(s: Seq<(String, String)>) -> bool {
    forall|a: int, b: int| 0 <= a < s.len() && 0 <= b < s.len() && a != b ==> s[a].0@ != s[b].0@
}

proof fn lemma_env_map_update(s: Seq<(String, String)>, q: int, p: (String, String))
    requires
        env_names_distinct(s),
        0 <= q < s.len(),
        s[q].0@ == p.0@,
    ensures
        env_map(s.update(q, p)) == env_map(s).insert(p.0@, p.1@),
    decreases s.len(),
{
    let t = s.update(q, p);
    if q == s.len() - 1 {
        assert(t.drop_last() =~= s.drop_last());
        assert(env_map(s).insert(p.0@, p.1@) =~= env_map(s.drop_last()).insert(p.0@, p.1@));
    } else {
        assert(t.drop_last() =~= s.drop_last().update(q, p));
        lemma_env_map_update(s.drop_last(), q, p);
        assert(s.last().0@ != p.0@);
        assert(env_map(t) =~= env_map(s).insert(p.0@, p.1@));
    }
}

/// Adds the assignments `pairs` to `out`, replacing the value of a name
/// already there.
fn absorb_envs(
    out: &mut Vec<(String, String)>,
    idx: &mut KeyIndex,
    pairs: &Vec<(String, String)>,
    Ghost(base): Ghost<Seq<(String, String)>>,
)
    requires
        env_names_distinct(old(out)@),
        env_map(old(out)@) == env_map(base),
        forall|k: Seq<char>| #[trigger] index_contents(*old(idx)).dom().contains(k) ==> {
            &&& index_contents(*old(idx))[k] < old(out)@.len()
            &&& old(out)@[index_contents(*old(idx))[k] as int].0@ == k
        },
        forall|q: int| 0 <= q < old(out)@.len() ==> index_contents(*old(idx)).dom().contains(#[trigger] old(out)@[q].0@),
    ensures
        env_names_distinct(final(out)@),
        env_map(final(out)@) == env_map(base + pairs@),
        forall|k: Seq<char>| #[trigger] index_contents(*final(idx)).dom().contains(k) ==> {
            &&& index_contents(*final(idx))[k] < final(out)@.len()
            &&& final(out)@[index_contents(*final(idx))[k] as int].0@ == k
        },
        forall|q: int| 0 <= q < final(out)@.len() ==> index_contents(*final(idx)).dom().contains(#[trigger] final(out)@[q].0@),
{
    let mut i: usize = 0;
    proof {
        assert(base + pairs@.take(0) =~= base);
    }
    while i < pairs.len()
        invariant
            i <= pairs.len(),
            env_names_distinct(out@),
            env_map(out@) == env_map(base + pairs@.take(i as int)),
            forall|k: Seq<char>| #[trigger] index_contents(*idx).dom().contains(k) ==> {
                &&& index_contents(*idx)[k] < out@.len()
                &&& out@[index_contents(*idx)[k] as int].0@ == k
            },
            forall|q: int| 0 <= q < out@.len() ==> index_contents(*idx).dom().contains(#[trigger] out@[q].0@),
        decreases pairs.len() - i,
    {
        let name = pairs[i].0.clone();
        let value = pairs[i].1.clone();
        proof {
            assert((base + pairs@.take(i + 1)).drop_last() =~= base + pairs@.take(i as int));
            assert((base + pairs@.take(i + 1)).last() == pairs@[i as int]);
        }
        match idx.get(name.as_str()) {
            Some(q) => {
                let ghost before = out@;
                out.set(q, (name, value));
                proof {
                    lemma_env_map_update(before, q as int, (name, value));
                    assert forall|a: int, b: int| 0 <= a < out@.len() && 0 <= b < out@.len() && a != b implies out@[a].0@ != out@[b].0@ by {
                        if a != q && b != q {
                            assert(before[a].0@ != before[b].0@);
                        } else if a == q {
                            assert(before[q as int].0@ != before[b].0@);
                        } else {
                            assert(before[a].0@ != before[q as int].0@);
                        }
                    }
                    assert forall|k: Seq<char>| #[trigger] index_contents(*idx).dom().contains(k) implies {
                        &&& index_contents(*idx)[k] < out@.len()
                        &&& out@[index_contents(*idx)[k] as int].0@ == k
                    } by {
                        assert(before[index_contents(*idx)[k] as int].0@ == k);
                    }
                    assert forall|q2: int| 0 <= q2 < out@.len() implies index_contents(*idx).dom().contains(#[trigger] out@[q2].0@) by {
                        assert(index_contents(*idx).dom().contains(before[q2].0@));
                    }
                }
            },
            None => {
                let ghost before = out@;
                let ghost idx0 = index_contents(*idx);
                idx.insert(name.clone(), out.len());
                out.push((name, value));
                proof {
                    assert(out@.drop_last() =~= before);
                    assert forall|a: int, b: int| 0 <= a < out@.len() && 0 <= b < out@.len() && a != b implies out@[a].0@ != out@[b].0@ by {
                        if a < before.len() && b < before.len() {
                            assert(before[a].0@ != before[b].0@);
                        } else if a == before.len() {
                            assert(idx0.dom().contains(before[b].0@));
                        } else {
                            assert(idx0.dom().contains(before[a].0@));
                        }
                    }
                    assert forall|k: Seq<char>| #[trigger] index_contents(*idx).dom().contains(k) implies {
                        &&& index_contents(*idx)[k] < out@.len()
                        &&& out@[index_contents(*idx)[k] as int].0@ == k
                    } by {
                        if k != name@ {
                            assert(before[idx0[k] as int].0@ == k);
                        }
                    }
                    assert forall|q2: int| 0 <= q2 < out@.len() implies index_contents(*idx).dom().contains(#[trigger] out@[q2].0@) by {
                        if q2 < before.len() {
                            assert(idx0.dom().contains(before[q2].0@));
                        }
                    }
                }
            },
        }
        i = i + 1;
    }
    proof {
        assert(pairs@.take(pairs@.len() as int) =~= pairs@);
    }
}

/// The environment of a task: the global variables, overridden by the
/// task's own.
pub fn merge_envs(global: &Vec<(String, String)>, task: &Vec<(String, String)>) -> (r: Vec<(String, String)>)
    ensures
        env_names_distinct(r@),
        env_map(r@) == env_map(global@ + task@),
{
    let mut out: Vec<(String, String)> = Vec::new();
    let mut idx = KeyIndex::new();
    proof {
        assert(env_map(out@) == env_map(Seq::<(String, String)>::empty()));
    }
    absorb_envs(&mut out, &mut idx, global, Ghost(Seq::empty()));
    proof {
        assert(Seq::<(String, String)>::empty() + global@ =~= global@);
    }
    absorb_envs(&mut out, &mut idx, task, Ghost(global@));
    out
}

/// Every line of the script is a shell command; no script is an empty
/// program.
pub open spec fn script_ok(s: Option<String>) -> bool {
    match s {
        None => true,
        Some(x) => forall|i: int| 0 <= i < lines_of(x@).len() ==> shell_accepts(#[trigger] lines_of(x@)[i]),
    }
}

proof fn lemma_script_refused(x: String, i: int)
    requires
        0 <= i < lines_of(x@).len(),
        !shell_accepts(lines_of(x@)[i]),
    ensures
        !script_ok(Some(x)),
{
    let s: Option<String> = Some(x);
    assert(s->Some_0 == x);
}

pub open spec fn script_len(s: Option<String>) -> nat {
    match s {
        None => 0,
        Some(x) => lines_of(x@).len(),
    }
}

/// Parses a script line by line.
fn parse_script(script: &Option<String>) -> (r: Result<Vec<SequentialList>, ParseError>)
    ensures
        r is Ok <==> script_ok(*script),
        r matches Ok(v) ==> v.len() == script_len(*script),
{
    let mut items: Vec<SequentialList> = Vec::new();
    match script {
        None => Ok(items),
        Some(text) => {
            let lines = split_lines(text.as_str());
            let ghost ls = lines_of(text@);
            let mut i: usize = 0;
            while i < lines.len()
                invariant
                    lines@.map_values(|l: String| l@) == ls,
                    ls == lines_of(text@),
                    *script == Some(*text),
                    i <= lines.len(),
                    items.len() == i,
                    forall|k: int| 0 <= k < i ==> shell_accepts(#[trigger] ls[k]),
                decreases lines.len() - i,
            {
                proof {
                    assert(ls[i as int] == lines@[i as int]@);
                }
                match parse_line(lines[i].as_str()) {
                    Ok(program) => items.push(program),
                    Err(e) => {
                        proof {
                            let x: String = *text;
                            assert(!shell_accepts(lines_of(x@)[i as int]));
                            assert(i < lines_of(x@).len());
                            lemma_script_refused(x, i as int);
                        }
                        return Err(e);
                    },
                }
                i = i + 1;
            }
            Ok(items)
        },
    }
}

/// What a task becomes when it is made ready to run.
pub open spec fn prepared(key: TaskKey, t: Task, global: Seq<(String, String)>, x: TaskExecutable) -> bool {
    &&& x.task_name@ == key@
    &&& x.cwd@ == t.cwd@
    &&& key_texts(x.depends@) == key_texts(t.depends@)
    &&& x.script.len() == script_len(t.script)
    &&& env_names_distinct(x.envs@)
    &&& env_map(x.envs@) == env_map(global + t.envs@)
}

pub open spec fn task_ok(t: Task, dir_exists: bool) -> bool {
    script_ok(t.script) && dir_exists
}

/// Makes every task ready to run: its script parsed line by line, its
/// environment merged over `opts.envs`. `dir_exists[e]` tells whether the
/// directory of the `e`-th task exists. Fails on the first task, in order,
/// whose script does not parse or whose directory is missing.
#[verifier::loop_isolation(false)]
pub fn into_executable(tasks: Vec<(TaskKey, Task)>, opts: &ExecuteOpts, dir_exists: &Vec<bool>) -> (r: Result<
    Vec<(TaskKey, TaskExecutable)>,
    TaskParseError,
>)
    requires
        dir_exists.len() == tasks.len(),
    ensures
        r is Ok <==> forall|e: int| 0 <= e < tasks.len() ==> #[trigger] task_ok(tasks@[e].1, dir_exists@[e]),
        match r {
            Ok(v) => {
                &&& v.len() == tasks.len()
                &&& forall|e: int| #![trigger v@[e]] 0 <= e < v.len() ==> v@[e].0@ == tasks@[e].0@ && prepared(tasks@[e].0, tasks@[e].1, opts.envs@, v@[e].1)
                &&& graph_of(v@) == graph_of(tasks@)
            },
            Err(TaskParseError::ScriptParseError { task_name, error }) => exists|e: int|
                0 <= e < tasks.len() && (forall|f: int| 0 <= f < e ==> #[trigger] task_ok(tasks@[f].1, dir_exists@[f]))
                    && !script_ok(#[trigger] tasks@[e].1.script) && task_name@ == tasks@[e].0@,
            Err(TaskParseError::DirectoryNotFound(p)) => exists|e: int|
                0 <= e < tasks.len() && (forall|f: int| 0 <= f < e ==> #[trigger] task_ok(tasks@[f].1, dir_exists@[f]))
                    && script_ok(#[trigger] tasks@[e].1.script) && !dir_exists@[e] && p@ == tasks@[e].1.cwd@,
        },
{
    let ghost tasks0 = tasks@;
    let mut tasks = tasks;
    let mut out: Vec<(TaskKey, TaskExecutable)> = Vec::new();
    while tasks.len() > 0
        invariant
            out.len() + tasks.len() == tasks0.len(),
            dir_exists.len() == tasks0.len(),
            tasks@ == tasks0.subrange(out.len() as int, tasks0.len() as int),
            forall|f: int| 0 <= f < out.len() ==> #[trigger] task_ok(tasks0[f].1, dir_exists@[f]),
            forall|e: int| #![trigger out@[e]] 0 <= e < out.len() ==> out@[e].0@ == tasks0[e].0@ && prepared(tasks0[e].0, tasks0[e].1, opts.envs@, out@[e].1),
        decreases tasks.len(),
    {
        let e = out.len();
        let (key, task) = tasks.remove(0);
        proof {
            assert(tasks0[e as int] == (key, task));
        }
        let script = match parse_script(&task.script) {
            Ok(s) => s,
            Err(error) => {
                proof {
                    assert(!task_ok(tasks0[e as int].1, dir_exists@[e as int]));
                }
                return Err(TaskParseError::ScriptParseError { task_name: key, error });
            },
        };
        if !dir_exists[e] {
            proof {
                assert(!task_ok(tasks0[e as int].1, dir_exists@[e as int]));
            }
            return Err(TaskParseError::DirectoryNotFound(task.cwd));
        }
        let envs = merge_envs(&opts.envs, &task.envs);
        let name = key.clone();
        let Task { cwd, depends, .. } = task;
        let x = TaskExecutable { task_name: name, envs, script, cwd, depends };
        proof {
            assert(x.task_name@ == key@);
            assert(x.cwd@ == tasks0[e as int].1.cwd@);
            assert(key_texts(x.depends@) == key_texts(tasks0[e as int].1.depends@));
            assert(x.script.len() == script_len(tasks0[e as int].1.script));
            assert(env_map(x.envs@) == env_map(opts.envs@ + tasks0[e as int].1.envs@));
            assert(prepared(tasks0[e as int].0, tasks0[e as int].1, opts.envs@, x));
        }
        let ghost out0 = out@;
        let ghost entry = (key, x);
        out.push((key, x));
        proof {
            assert(out@[e as int] == entry);
            assert(entry.0@ == tasks0[e as int].0@);
            assert forall|f: int| #![trigger out@[f]] 0 <= f < out.len() implies out@[f].0@ == tasks0[f].0@ && prepared(tasks0[f].0, tasks0[f].1, opts.envs@, out@[f].1) by {
                if f < e {
                    assert(out@[f] == out0[f]);
                    assert(out0[f].0@ == tasks0[f].0@ && prepared(tasks0[f].0, tasks0[f].1, opts.envs@, out0[f].1));
                }
            }
        }
    }
    proof {
        let g1 = graph_of(out@);
        let g0 = graph_of(tasks0);
        assert forall|e: int| 0 <= e < out.len() implies g1.keys[e] == g0.keys[e] by {
            assert(out@[e].0@ == tasks0[e].0@);
        }
        assert(g1.keys =~= g0.keys);
        assert forall|e: int| 0 <= e < out.len() implies g1.deps[e] == g0.deps[e] by {
            assert(prepared(tasks0[e].0, tasks0[e].1, opts.envs@, out@[e].1));
        }
        assert(g1.deps =~= g0.deps);
    }
    Ok(out)
}

/// The tasks of a run, keyed by task key.
pub struct Rusk {
    pub tasks: Vec<(TaskKey, Task)>,
}

/// Every task's script parses and its directory exists.
pub open spec fn all_tasks_ok(tasks: Seq<(TaskKey, Task)>, dir_exists: Seq<bool>) -> bool {
    forall|e: int| 0 <= e < tasks.len() ==> #[trigger] task_ok(tasks[e].1, dir_exists[e])
}

/// Every argument reads as a task key.
pub open spec fn args_parse(args: Seq<String>) -> bool {
    forall|i: int| 0 <= i < args.len() ==> (#[trigger] parse_key_spec(args[i]@)) is Some
}

/// The keys the arguments name, seen from `cwd`.
pub open spec fn arg_keys(args: Seq<String>, cwd: Seq<char>) -> Seq<KeyText> {
    args.map_values(|a: String| key_of(parse_key_spec(a@)->Some_0, cwd))
}

/// `f` is the forest of `roots` over the tasks made ready to run.
pub open spec fn planned(
    tasks: Seq<(TaskKey, Task)>,
    global: Seq<(String, String)>,
    roots: Seq<KeyText>,
    f: Forest<TaskExecutable>,
) -> bool {
    exists|v: Seq<(TaskKey, TaskExecutable)>|
        {
            &&& v.len() == tasks.len()
            &&& forall|e: int| #![trigger v[e]] 0 <= e < v.len() ==> prepared(tasks[e].0, tasks[e].1, global, v[e].1)
            &&& #[trigger] builds(v, roots, f)
        }
}

impl Rusk {
    /// Merges the tasks of a composer's files; see
    /// `RuskfileComposer::try_into_task_map`.
    pub fn try_from(composer: RuskfileComposer) -> (r: Result<Rusk, RuskfileConvertError>)
        ensures
            r is Ok <==> names_distinct(entries(composer@)),
            match r {
                Ok(rk) => {
                    &&& rk.tasks.len() == entries(composer@).len()
                    &&& forall|e: int| 0 <= e < rk.tasks.len() ==> #[trigger] converts(entries(composer@)[e], rk.tasks@[e].0, rk.tasks@[e].1)
                    &&& graph_of(rk.tasks@).wf()
                },
                Err(RuskfileConvertError::DuplicatedTaskName(n)) => first_duplicate(entries(composer@), n@),
            },
    {
        match composer.try_into_task_map() {
            Ok(tasks) => Ok(Rusk { tasks }),
            Err(e) => Err(e),
        }
    }

    /// Prepares a run of the tasks that `args` name, seen from `cwd`: makes
    /// every task ready to run (`dir_exists[e]` tells whether the directory
    /// of the `e`-th task exists), reads the arguments as keys, and builds
    /// their dependency trees. What remains is to execute the forest.
    #[verifier::loop_isolation(false)]
    pub fn plan(self, args: Vec<String>, cwd: &NormarizedPath, opts: &ExecuteOpts, dir_exists: &Vec<bool>) -> (r: Result<
        Forest<TaskExecutable>,
        RuskError,
    >)
        requires
            graph_of(self.tasks@).wf(),
            dir_exists.len() == self.tasks.len(),
        ensures
            r is Ok <==> all_tasks_ok(self.tasks@, dir_exists@) && args_parse(args@) && graph_of(self.tasks@).buildable(
                arg_keys(args@, cwd@),
            ),
            match r {
                Ok(f) => planned(self.tasks@, opts.envs@, arg_keys(args@, cwd@), f),
                Err(RuskError::TaskUnparsable(_)) => !all_tasks_ok(self.tasks@, dir_exists@),
                Err(RuskError::InvalidTaskKey(_)) => all_tasks_ok(self.tasks@, dir_exists@) && !args_parse(args@),
                Err(RuskError::TreeNodeBroken(TreeNodeCreationError::ItemNotFound(k))) => {
                    &&& all_tasks_ok(self.tasks@, dir_exists@)
                    &&& args_parse(args@)
                    &&& graph_of(self.tasks@).missing(arg_keys(args@, cwd@), k@)
                },
                Err(RuskError::TreeNodeBroken(TreeNodeCreationError::CircularDependency(k))) => {
                    &&& all_tasks_ok(self.tasks@, dir_exists@)
                    &&& args_parse(args@)
                    &&& exists|j: int|
                        0 <= j < self.tasks.len() && self.tasks@[j].0@ == k@ && graph_of(self.tasks@).reachable(
                            arg_keys(args@, cwd@),
                            j,
                        ) && #[trigger] graph_of(self.tasks@).on_cycle(j)
                },
                Err(RuskError::TaskFailed(_)) => false,
            },
    {
        let ghost tasks0 = self.tasks@;
        let execs = match into_executable(self.tasks, opts, dir_exists) {
            Ok(v) => v,
            Err(e) => {
                return Err(RuskError::TaskUnparsable(e));
            },
        };
        let ghost args0 = args@;
        let mut rest = args;
        let mut keys: Vec<TaskKey> = Vec::new();
        while rest.len() > 0
            invariant
                keys.len() + rest.len() == args0.len(),
                rest@ == args0.subrange(keys.len() as int, args0.len() as int),
                forall|i: int| 0 <= i < keys.len() ==> (#[trigger] parse_key_spec(args0[i]@)) is Some,
                forall|i: int| 0 <= i < keys.len() ==> (#[trigger] keys@[i])@ == key_of(parse_key_spec(args0[i]@)->Some_0, cwd@),
            decreases rest.len(),
        {
            let i = keys.len();
            let a = rest.remove(0);
            proof {
                assert(args0[i as int] == a);
            }
            match TaskKeyRelative::try_from(a) {
                Ok(k) => keys.push(k.into_task_key(cwd)),
                Err(e) => {
                    return Err(RuskError::InvalidTaskKey(e));
                },
            }
        }
        proof {
            assert(key_texts(keys@) =~= arg_keys(args0, cwd@));
        }
        let ghost v = execs@;
        match TreeNode::new_vec(execs, keys) {
            Ok(f) => {
                proof {
                    assert(forall|e: int| #![trigger v[e]] 0 <= e < v.len() ==> prepared(tasks0[e].0, tasks0[e].1, opts.envs@, v[e].1));
                    assert(builds(v, arg_keys(args0, cwd@), f));
                    assert(planned(tasks0, opts.envs@, arg_keys(args0, cwd@), f));
                }
                Ok(f)
            },
            Err(e) => Err(RuskError::TreeNodeBroken(e)),
        }
    }
}

} // verus!
