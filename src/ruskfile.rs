//! Configuration files: merging their tasks and listing them.

use vstd::prelude::*;

use crate::digraph::{graph_of, key_texts};
use crate::keyindex::{index_contents, KeyIndex};
use crate::path::{dedot_of, join_spec, parent_spec, NormarizedPath};
use crate::rusk::Task;
use crate::taskkey::{key_of, KeyText, PhonyTaskString, TaskKey, TaskKeyRelative};
use crate::text::{compare_str, lemma_lex_cmp_equal, lemma_lex_cmp_flip, lemma_lex_cmp_trans, lex_cmp};

verus! {

/// Whether a file of this name is a configuration file: `rusk.toml` or
/// `.rusk.toml`.
pub fn is_ruskfile(name: &str) -> (r: bool)
    ensures
        r == (name@ == "rusk.toml"@ || name@ == ".rusk.toml"@),
{
    let n = String::from_str(name);
    let plain = String::from_str("rusk.toml");
    let hidden = String::from_str(".rusk.toml");
    n == plain || n == hidden
}

/// One task as a configuration file writes it.
pub struct TaskEntry {
    pub name: PhonyTaskString,
    pub description: Option<String>,
    pub script: Option<String>,
    pub depends: Vec<TaskKeyRelative>,
    pub envs: Vec<(String, String)>,
    /// The working directory as written, relative to the file's directory.
    pub cwd: String,
}

/// The tasks of one configuration file, in the order they were read.
pub struct RuskfileContent {
    pub tasks: Vec<TaskEntry>,
}

/// One loaded configuration file: its path, and its tasks or why it could
/// not be read.
pub type LoadedFile = (NormarizedPath, Result<RuskfileContent, String>);

/// The configuration files found so far, each under its own path.
pub struct RuskfileComposer {
    files: Vec<LoadedFile>,
}

impl View for RuskfileComposer {
    type V = Seq<LoadedFile>;

    closed spec fn view(&self) -> Seq<LoadedFile> {
        self.files@
    }
}

/// No path occurs twice.
pub open spec fn paths_distinct(files: Seq<LoadedFile>) -> bool {
    forall|a: int, b: int| 0 <= a < files.len() && 0 <= b < files.len() && a != b ==> files[a].0@ != files[b].0@
}

/// The tasks of one file, each with the file's path.
pub open spec fn file_entries(f: LoadedFile) -> Seq<(Seq<char>, TaskEntry)> {
    match f.1 {
        Ok(c) => c.tasks@.map_values(|t: TaskEntry| (f.0@, t)),
        Err(_) => Seq::empty(),
    }
}

/// The tasks of all files that loaded, file after file.
pub open spec fn entries(files: Seq<LoadedFile>) -> Seq<(Seq<char>, TaskEntry)>
    decreases files.len(),
{
    if files.len() == 0 {
        Seq::empty()
    } else {
        entries(files.drop_last()) + file_entries(files.last())
    }
}

/// The path and message of each file that did not load, file after file.
pub open spec fn failures(files: Seq<LoadedFile>) -> Seq<(Seq<char>, Seq<char>)>
    decreases files.len(),
{
    if files.len() == 0 {
        Seq::empty()
    } else {
        failures(files.drop_last()) + match files.last().1 {
            Ok(_) => Seq::empty(),
            Err(m) => seq![(files.last().0@, m@)],
        }
    }
}

/// The directory of a configuration file.
pub open spec fn dir_of(p: Seq<char>) -> Seq<char> {
    match parent_spec(p) {
        Some(d) => d,
        None => p,
    }
}

pub open spec fn opt_view(o: Option<String>) -> Option<Seq<char>> {
    match o {
        Some(s) => Some(s@),
        None => None,
    }
}

/// `k` and `t` are what the entry `e` becomes: its name as a phony key, its
/// directory and its keys resolved against the file's directory.
pub open spec fn converts(e: (Seq<char>, TaskEntry), k: TaskKey, t: Task) -> bool {
    let dir = dir_of(e.0);
    &&& k@ == KeyText::Phony(e.1.name@)
    &&& t.envs == e.1.envs
    &&& t.script == e.1.script
    &&& t.description == e.1.description
    &&& t.cwd@ == dedot_of(join_spec(dir, e.1.cwd@))
    &&& key_texts(t.depends@) == e.1.depends@.map_values(|d: TaskKeyRelative| key_of(d@, dir))
}

/// No two entries share a name.
pub open spec fn names_distinct(es: Seq<(Seq<char>, TaskEntry)>) -> bool {
    forall|a: int, b: int| 0 <= a < es.len() && 0 <= b < es.len() && a != b ==> es[a].1.name@ != es[b].1.name@
}

/// `n` is the first name, in entry order, to be defined a second time:
/// entry `b` repeats the name `n` of an earlier entry `a`, and the entries
/// before `b` have distinct names.
pub open spec fn first_duplicate(es: Seq<(Seq<char>, TaskEntry)>, n: Seq<char>) -> bool {
    exists|a: int, b: int|
        #![trigger es[a], es[b]]
        0 <= a < b < es.len() && es[a].1.name@ == n && es[b].1.name@ == n && names_distinct(es.take(b))
}

/// Where a single task name is defined more than once, the merge reports
/// that name: a name defined twice is refused with that very name whenever
/// no other name is defined twice.
pub proof fn lemma_duplicate_reported(es: Seq<(Seq<char>, TaskEntry)>, n: Seq<char>, m: Seq<char>)
    requires
        forall|a: int, b: int|
            #![trigger es[a], es[b]]
            0 <= a < es.len() && 0 <= b < es.len() && a != b && es[a].1.name@ == es[b].1.name@
                ==> es[a].1.name@ == n,
        first_duplicate(es, m),
    ensures
        m == n,
        !names_distinct(es),
{
    let (a, b) = choose|a: int, b: int|
        #![trigger es[a], es[b]]
        0 <= a < b < es.len() && es[a].1.name@ == m && es[b].1.name@ == m && names_distinct(es.take(b));
    assert(es[a].1.name@ == es[b].1.name@);
}

/// A task name was defined twice.
pub enum RuskfileConvertError {
    DuplicatedTaskName(String),
}

proof fn lemma_entries_step(files: Seq<LoadedFile>, d: int)
    requires
        0 <= d < files.len(),
    ensures
        entries(files.take(d + 1)) == entries(files.take(d)) + file_entries(files[d]),
        failures(files.take(d + 1)) == failures(files.take(d)) + match files[d].1 {
            Ok(_) => Seq::empty(),
            Err(m) => seq![(files[d].0@, m@)],
        },
{
    assert(files.take(d + 1).drop_last() =~= files.take(d));
}

fn resolve_depends(deps: Vec<TaskKeyRelative>, dir: &NormarizedPath) -> (r: Vec<TaskKey>)
    ensures
        key_texts(r@) == deps@.map_values(|d: TaskKeyRelative| key_of(d@, dir@)),
{
    let ghost deps0 = deps@;
    let mut deps = deps;
    let mut out: Vec<TaskKey> = Vec::new();
    while deps.len() > 0
        invariant
            out.len() + deps.len() == deps0.len(),
            deps@ == deps0.subrange(out.len() as int, deps0.len() as int),
            forall|i: int| 0 <= i < out.len() ==> (#[trigger] out@[i])@ == key_of(deps0[i]@, dir@),
        decreases deps.len(),
    {
        let d = deps.remove(0);
        proof {
            assert(deps0[out.len() as int] == d);
        }
        out.push(d.into_task_key(dir));
    }
    assert(key_texts(out@) =~= deps0.map_values(|d: TaskKeyRelative| key_of(d@, dir@)));
    out
}

impl RuskfileComposer {
    /// A composer that holds no file.
    pub fn new() -> (r: Self)
        ensures
            r@ == Seq::<LoadedFile>::empty(),
    {
        RuskfileComposer { files: Vec::new() }
    }

    /// Records a loaded file; a file already held under the same path is
    /// replaced.
    pub fn insert(&mut self, path: NormarizedPath, res: Result<RuskfileContent, String>)
        requires
            paths_distinct(old(self)@),
        ensures
            paths_distinct(final(self)@),
            (exists|i: int| 0 <= i < old(self)@.len() && old(self)@[i].0@ == path@) ==> exists|i: int|
                0 <= i < old(self)@.len() && old(self)@[i].0@ == path@ && final(self)@ == old(self)@.update(i, (path, res)),
            (forall|i: int| 0 <= i < old(self)@.len() ==> old(self)@[i].0@ != path@) ==> final(self)@
                == old(self)@.push((path, res)),
    {
        let ghost before0 = self.files@;
        let mut i: usize = 0;
        while i < self.files.len()
            invariant
                self.files@ == before0,
                before0 == old(self)@,
                paths_distinct(before0),
                i <= self.files.len(),
                forall|j: int| 0 <= j < i ==> (#[trigger] self.files@[j]).0@ != path@,
            decreases self.files.len() - i,
        {
            if self.files[i].0.same_path(&path) {
                let ghost before = self.files@;
                self.files.set(i, (path, res));
                proof {
                    assert forall|a: int, b: int|
                        0 <= a < self.files@.len() && 0 <= b < self.files@.len() && a != b implies self.files@[a].0@ != self.files@[b].0@ by {
                        if a != i && b != i {
                            assert(before[a].0@ != before[b].0@);
                        } else if a == i {
                            assert(before[i as int].0@ != before[b].0@);
                        } else {
                            assert(before[a].0@ != before[i as int].0@);
                        }
                    }
                }
                return;
            }
            i = i + 1;
        }
        self.files.push((path, res));
    }

    /// The tasks of all files that loaded, one item each.
    pub fn tasks_list(&self) -> (r: Vec<TasksListItem>)
        ensures
            r.len() == entries(self@).len(),
            forall|i: int|
                0 <= i < r.len() ==> #[trigger] item_view(r@[i]) == (ItemContent::Task(
                    entries(self@)[i].1.name@,
                    opt_view(entries(self@)[i].1.description),
                ), entries(self@)[i].0),
    {
        let mut out: Vec<TasksListItem> = Vec::new();
        let mut f: usize = 0;
        while f < self.files.len()
            invariant
                f <= self.files.len(),
                out.len() == entries(self.files@.take(f as int)).len(),
                forall|i: int|
                    0 <= i < out.len() ==> #[trigger] item_view(out@[i]) == (ItemContent::Task(
                        entries(self.files@.take(f as int))[i].1.name@,
                        opt_view(entries(self.files@.take(f as int))[i].1.description),
                    ), entries(self.files@.take(f as int))[i].0),
            decreases self.files.len() - f,
        {
            proof {
                lemma_entries_step(self.files@, f as int);
            }
            let ghost prefix = entries(self.files@.take(f as int));
            let file = &self.files[f];
            match &file.1 {
                Ok(content) => {
                    let mut q: usize = 0;
                    while q < content.tasks.len()
                        invariant
                            q <= content.tasks.len(),
                            file == self.files@[f as int],
                            file.1 == Ok::<RuskfileContent, String>(*content),
                            out.len() == prefix.len() + q,
                            forall|i: int|
                                0 <= i < out.len() ==> #[trigger] item_view(out@[i]) == (ItemContent::Task(
                                    (prefix + file_entries(*file))[i].1.name@,
                                    opt_view((prefix + file_entries(*file))[i].1.description),
                                ), (prefix + file_entries(*file))[i].0),
                        decreases content.tasks.len() - q,
                    {
                        let t = &content.tasks[q];
                        let item = TasksListItem {
                            content: Ok(TaskListItemContent {
                                name: String::from_str(t.name.as_str()),
                                description: clone_opt(&t.description),
                            }),
                            path: file.0.clone(),
                        };
                        proof {
                            assert((prefix + file_entries(*file))[out.len() as int] == (file.0@, *t));
                        }
                        out.push(item);
                        q = q + 1;
                    }
                },
                Err(_) => {},
            }
            f = f + 1;
        }
        proof {
            assert(self.files@.take(self.files@.len() as int) =~= self.files@);
        }
        out
    }

    /// The files that did not load, one item each with its message.
    pub fn errors_list(&self) -> (r: Vec<TasksListItem>)
        ensures
            r.len() == failures(self@).len(),
            forall|i: int|
                0 <= i < r.len() ==> #[trigger] item_view(r@[i]) == (ItemContent::Error(failures(self@)[i].1),
                    failures(self@)[i].0),
    {
        let mut out: Vec<TasksListItem> = Vec::new();
        let mut f: usize = 0;
        while f < self.files.len()
            invariant
                f <= self.files.len(),
                out.len() == failures(self.files@.take(f as int)).len(),
                forall|i: int|
                    0 <= i < out.len() ==> #[trigger] item_view(out@[i]) == (ItemContent::Error(
                        failures(self.files@.take(f as int))[i].1,
                    ), failures(self.files@.take(f as int))[i].0),
            decreases self.files.len() - f,
        {
            proof {
                lemma_entries_step(self.files@, f as int);
            }
            let file = &self.files[f];
            match &file.1 {
                Ok(_) => {},
                Err(m) => {
                    out.push(TasksListItem { content: Err(m.clone()), path: file.0.clone() });
                },
            }
            f = f + 1;
        }
        proof {
            assert(self.files@.take(self.files@.len() as int) =~= self.files@);
        }
        out
    }

    /// Merges the tasks of all files that loaded into one list keyed by task
    /// name, each resolved against its file's directory. Fails on the first
    /// name defined twice.
    #[verifier::loop_isolation(false)]
    pub fn try_into_task_map(self) -> (r: Result<Vec<(TaskKey, Task)>, RuskfileConvertError>)
        ensures
            r is Ok <==> names_distinct(entries(self@)),
            match r {
                Ok(m) => {
                    &&& m.len() == entries(self@).len()
                    &&& forall|e: int| 0 <= e < m.len() ==> #[trigger] converts(entries(self@)[e], m@[e].0, m@[e].1)
                    &&& graph_of(m@).wf()
                },
                Err(RuskfileConvertError::DuplicatedTaskName(n)) => first_duplicate(entries(self@), n@),
            },
    {
        let ghost files0 = self@;
        let mut files = self.files;
        let mut out: Vec<(TaskKey, Task)> = Vec::new();
        let mut index = KeyIndex::new();
        let ghost mut done: int = 0;
        while files.len() > 0
            invariant
                0 <= done <= files0.len(),
                files@ == files0.subrange(done, files0.len() as int),
                out.len() == entries(files0.take(done)).len(),
                forall|e: int| 0 <= e < out.len() ==> #[trigger] converts(entries(files0.take(done))[e], out@[e].0, out@[e].1),
                names_distinct(entries(files0.take(done))),
                forall|k: Seq<char>| #[trigger] index_contents(index).dom().contains(k) ==> {
                    &&& index_contents(index)[k] < out.len()
                    &&& entries(files0.take(done))[index_contents(index)[k] as int].1.name@ == k
                },
                forall|e: int| 0 <= e < out.len() ==> index_contents(index).dom().contains(#[trigger] entries(files0.take(done))[e].1.name@),
            decreases files.len(),
        {
            proof {
                lemma_entries_step(files0, done);
            }
            let ghost prefix = entries(files0.take(done));
            let (path, res) = files.remove(0);
            proof {
                assert(files0[done] == (path, res));
            }
            let ghost fe = file_entries((path, res));
            match res {
                Ok(content) => {
                    let dir = match path.clone().into_parent() {
                        Some(d) => d,
                        None => path.clone(),
                    };
                    assert(dir@ == dir_of(path@));
                    let ghost tasks0 = content.tasks@;
                    let mut tasks = content.tasks;
                    let mut q: usize = 0;
                    while tasks.len() > 0
                        invariant
                            q + tasks.len() == tasks0.len(),
                            tasks@ == tasks0.subrange(q as int, tasks0.len() as int),
                            fe == tasks0.map_values(|t: TaskEntry| (path@, t)),
                            out.len() == prefix.len() + q,
                            forall|e: int| 0 <= e < out.len() ==> #[trigger] converts((prefix + fe)[e], out@[e].0, out@[e].1),
                            names_distinct((prefix + fe).take(out.len() as int)),
                            forall|k: Seq<char>| #[trigger] index_contents(index).dom().contains(k) ==> {
                                &&& index_contents(index)[k] < out.len()
                                &&& (prefix + fe)[index_contents(index)[k] as int].1.name@ == k
                            },
                            forall|e: int| 0 <= e < out.len() ==> index_contents(index).dom().contains(#[trigger] (prefix + fe)[e].1.name@),
                        decreases tasks.len(),
                    {
                        let t = tasks.remove(0);
                        proof {
                            assert(tasks0[q as int] == t);
                            assert((prefix + fe)[out.len() as int] == (path@, t));
                        }
                        let TaskEntry { name, description, script, depends, envs, cwd } = t;
                        match index.get(name.as_str()) {
                            Some(e) => {
                                proof {
                                    assert((prefix + fe)[e as int].1.name@ == name@);
                                    assert(entries(files0.take(done + 1)) == prefix + fe);
                                    assert(entries(files0.take(done + 1)).len() <= entries(files0).len()) by {
                                        lemma_entries_prefix(files0, done + 1);
                                    }
                                    lemma_entries_prefix(files0, done + 1);
                                    assert(entries(files0)[e as int] == (prefix + fe)[e as int]);
                                    assert(entries(files0)[out.len() as int] == (prefix + fe)[out.len() as int]);
                                    assert(entries(files0).take(out.len() as int) =~= (prefix + fe).take(out.len() as int));
                                    assert(first_duplicate(entries(files0), name@));
                                }
                                return Err(RuskfileConvertError::DuplicatedTaskName(String::from_str(name.as_str())));
                            },
                            None => {},
                        }
                        let ghost idx0 = index_contents(index);
                        index.insert(String::from_str(name.as_str()), out.len());
                        let cwd_path = dir.resolve(cwd.as_str());
                        let deps = resolve_depends(depends, &dir);
                        let task = Task { envs, script, cwd: cwd_path, depends: deps, description };
                        let ghost e_new = (prefix + fe)[out.len() as int];
                        out.push((TaskKey::Phony(name), task));
                        proof {
                            assert(converts(e_new, out@[out.len() - 1].0, out@[out.len() - 1].1));
                            let s = (prefix + fe).take(out.len() as int);
                            assert forall|a: int, b: int| 0 <= a < s.len() && 0 <= b < s.len() && a != b implies s[a].1.name@ != s[b].1.name@ by {
                                let last = out.len() - 1;
                                if a < last && b < last {
                                    assert((prefix + fe).take(last as int)[a] == s[a]);
                                    assert((prefix + fe).take(last as int)[b] == s[b]);
                                } else if a == last {
                                    assert(idx0.dom().contains((prefix + fe)[b].1.name@));
                                } else {
                                    assert(idx0.dom().contains((prefix + fe)[a].1.name@));
                                }
                            }
                        }
                        q = q + 1;
                    }
                    proof {
                        assert(prefix + fe == (prefix + fe).take(out.len() as int));
                    }
                },
                Err(_) => {
                    proof {
                        assert(prefix + fe =~= prefix);
                    }
                },
            }
            proof {
                done = done + 1;
            }
        }
        proof {
            assert(files0.take(files0.len() as int) =~= files0);
            let g = graph_of(out@);
            assert forall|a: int, b: int| 0 <= a < g.keys.len() && 0 <= b < g.keys.len() && a != b implies g.keys[a] != g.keys[b] by {
                assert(converts(entries(files0)[a], out@[a].0, out@[a].1));
                assert(converts(entries(files0)[b], out@[b].0, out@[b].1));
            }
        }
        Ok(out)
    }
}

/// The entries of the first files are the first entries.
proof fn lemma_entries_prefix(files: Seq<LoadedFile>, d: int)
    requires
        0 <= d <= files.len(),
    ensures
        entries(files.take(d)).len() <= entries(files).len(),
        forall|e: int| 0 <= e < entries(files.take(d)).len() ==> #[trigger] entries(files)[e] == entries(files.take(d))[e],
    decreases files.len() - d,
{
    if d < files.len() {
        lemma_entries_prefix(files, d + 1);
        lemma_entries_step(files, d);
    } else {
        assert(files.take(d) =~= files);
    }
}

fn clone_opt(o: &Option<String>) -> (r: Option<String>)
    ensures
        r == *o,
{
    match o {
        Some(s) => Some(s.clone()),
        None => None,
    }
}

/// A listing line: a task of a file, or a file that did not load.
pub struct TaskListItemContent {
    pub name: String,
    pub description: Option<String>,
}

/// An item of the listing: the task's name and description, or the file's
/// error message, with the file's path.
pub struct TasksListItem {
    pub content: Result<TaskListItemContent, String>,
    pub path: NormarizedPath,
}

/// What an item shows.
pub enum ItemContent {
    Task(Seq<char>, Option<Seq<char>>),
    Error(Seq<char>),
}

pub open spec fn content_view(c: Result<TaskListItemContent, String>) -> ItemContent {
    match c {
        Ok(t) => ItemContent::Task(t.name@, opt_view(t.description)),
        Err(m) => ItemContent::Error(m@),
    }
}

pub open spec fn item_view(x: TasksListItem) -> (ItemContent, Seq<char>) {
    (content_view(x.content), x.path@)
}

/// Where an item's content sorts: tasks before failed files, tasks by
/// name, failures by message.
pub open spec fn content_rank(c: ItemContent) -> (int, Seq<char>) {
    match c {
        ItemContent::Task(n, _) => (0, n),
        ItemContent::Error(m) => (1, m),
    }
}

/// Item `x` may stand before item `y` in the listing: by content, then by
/// the file's path.
pub open spec fn item_le(x: (ItemContent, Seq<char>), y: (ItemContent, Seq<char>)) -> bool {
    let (rx, kx) = content_rank(x.0);
    let (ry, ky) = content_rank(y.0);
    ||| rx < ry
    ||| rx == ry && lex_cmp(kx, ky) == core::cmp::Ordering::Less
    ||| rx == ry && lex_cmp(kx, ky) == core::cmp::Ordering::Equal && lex_cmp(x.1, y.1)
        != core::cmp::Ordering::Greater
}

/// Each item may stand before every later one.
pub open spec fn sorted_items(s: Seq<TasksListItem>) -> bool {
    forall|a: int, b: int| 0 <= a < b < s.len() ==> item_le(#[trigger] item_view(s[a]), #[trigger] item_view(s[b]))
}

proof fn lemma_item_le_total(x: (ItemContent, Seq<char>), y: (ItemContent, Seq<char>))
    ensures
        item_le(x, y) || item_le(y, x),
{
    lemma_lex_cmp_flip(content_rank(x.0).1, content_rank(y.0).1);
    lemma_lex_cmp_flip(x.1, y.1);
}

proof fn lemma_item_le_trans(
    x: (ItemContent, Seq<char>),
    y: (ItemContent, Seq<char>),
    z: (ItemContent, Seq<char>),
)
    requires
        item_le(x, y),
        item_le(y, z),
    ensures
        item_le(x, z),
{
    let kx = content_rank(x.0).1;
    let ky = content_rank(y.0).1;
    let kz = content_rank(z.0).1;
    if content_rank(x.0).0 == content_rank(y.0).0 && content_rank(y.0).0 == content_rank(z.0).0 {
        lemma_lex_cmp_trans(kx, ky, kz);
        lemma_lex_cmp_equal(kx, ky);
        lemma_lex_cmp_equal(ky, kz);
        lemma_lex_cmp_equal(kx, kz);
        if lex_cmp(kx, ky) == core::cmp::Ordering::Equal && lex_cmp(ky, kz) == core::cmp::Ordering::Equal {
            lemma_lex_cmp_trans(x.1, y.1, z.1);
        }
    }
}

fn content_key(c: &Result<TaskListItemContent, String>) -> (r: (u8, &str))
    ensures
        r.0 as int == content_rank(content_view(*c)).0,
        r.1@ == content_rank(content_view(*c)).1,
{
    match c {
        Ok(t) => (0, t.name.as_str()),
        Err(m) => (1, m.as_str()),
    }
}

/// Whether `x` may stand before `y` in the listing.
pub fn precedes(x: &TasksListItem, y: &TasksListItem) -> (r: bool)
    ensures
        r == item_le(item_view(*x), item_view(*y)),
{
    let (rx, kx) = content_key(&x.content);
    let (ry, ky) = content_key(&y.content);
    if rx != ry {
        return rx < ry;
    }
    match compare_str(kx, ky) {
        core::cmp::Ordering::Less => true,
        core::cmp::Ordering::Greater => false,
        core::cmp::Ordering::Equal => match compare_str(x.path.as_abs_str(), y.path.as_abs_str()) {
            core::cmp::Ordering::Greater => false,
            _ => true,
        },
    }
}

/// Sorts listing items: tasks before failed files, tasks by name and
/// failures by message, then by the file's path.
pub fn sort_items(items: Vec<TasksListItem>) -> (r: Vec<TasksListItem>)
    ensures
        r@.to_multiset() == items@.to_multiset(),
        sorted_items(r@),
{
    let ghost items0 = items@;
    let mut rest = items;
    let mut out: Vec<TasksListItem> = Vec::new();
    proof {
        broadcast use vstd::seq_lib::group_to_multiset_ensures;
        broadcast use vstd::multiset::group_multiset_axioms;
        assert(rest@ =~= items0);
        assert(out@.to_multiset() =~= vstd::multiset::Multiset::empty());
        assert(out@.to_multiset().add(rest@.to_multiset()) =~= items0.to_multiset());
    }
    while rest.len() > 0
        invariant
            out@.to_multiset().add(rest@.to_multiset()) == items0.to_multiset(),
            sorted_items(out@),
        decreases rest.len(),
    {
        let ghost rest0 = rest@;
        let x = rest.pop().unwrap();
        proof {
            assert(rest0 =~= rest@.push(x));
            vstd::seq_lib::to_multiset_build(rest@, x);
        }
        let mut i: usize = 0;
        while i < out.len() && precedes(&out[i], &x)
            invariant
                i <= out.len(),
                forall|k: int| 0 <= k < i ==> item_le(#[trigger] item_view(out@[k]), item_view(x)),
            decreases out.len() - i,
        {
            i = i + 1;
        }
        let ghost out0 = out@;
        proof {
            if i < out.len() {
                lemma_item_le_total(item_view(out@[i as int]), item_view(x));
            }
        }
        out.insert(i, x);
        proof {
            broadcast use vstd::multiset::group_multiset_axioms;
            vstd::seq_lib::to_multiset_insert(out0, i as int, x);
            assert(out@.to_multiset().add(rest@.to_multiset()) =~= items0.to_multiset());
            assert(out@ == out0.insert(i as int, x));
            assert forall|a: int, b: int| 0 <= a < b < out@.len() implies item_le(#[trigger] item_view(out@[a]), #[trigger] item_view(out@[b])) by {
                if b < i {
                    assert(out@[a] == out0[a] && out@[b] == out0[b]);
                } else if b == i {
                    assert(out@[a] == out0[a]);
                } else if a == i {
                    assert(out@[b] == out0[b - 1]);
                    if b - 1 > i {
                        assert(item_le(item_view(out0[i as int]), item_view(out0[b - 1])));
                        lemma_item_le_trans(item_view(x), item_view(out0[i as int]), item_view(out0[b - 1]));
                    }
                } else if a < i {
                    assert(out@[a] == out0[a] && out@[b] == out0[b - 1]);
                } else {
                    assert(out@[a] == out0[a - 1] && out@[b] == out0[b - 1]);
                }
            }
        }
    }
    proof {
        vstd::seq_lib::to_multiset_len(rest@);
        assert(rest@.to_multiset().len() == 0);
        assert(rest@.to_multiset() =~= vstd::multiset::Multiset::empty());
    }
    out
}

} // verus!
