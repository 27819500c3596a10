//! The decisions of a run: which task may start, what a finished task
//! means for the run, and when the run is over.

use vstd::prelude::*;

use crate::digraph::{DigraphItem, Forest};

verus! {

/// Where a task stands in a run.
#[derive(Clone, Copy, PartialEq, Eq, Structural, Debug)]
pub enum TaskState {
    /// Not started.
    Initialized,
    /// Its script is running.
    Processing,
    /// Its script ended with this exit code.
    Done(i32),
}

/// How a run stands.
#[derive(Clone, Copy, PartialEq, Eq, Structural, Debug)]
pub enum RunStatus {
    /// Some target has not succeeded yet and nothing has failed.
    Pending,
    /// Every target succeeded.
    Succeeded,
    /// This node's script failed first, with this exit code.
    Failed(usize, i32),
}

/// The state of a run over a forest, seen as values.
pub struct ExecView {
    /// The children of each node, by index.
    pub children: Seq<Seq<usize>>,
    /// The node of each target.
    pub roots: Seq<usize>,
    pub states: Seq<TaskState>,
    /// The first node that failed, with its exit code.
    pub failed: Option<(usize, i32)>,
    /// The nodes started so far, in order.
    pub started: Seq<usize>,
}

impl ExecView {
    /// Children come before their parents; a started node had every child
    /// succeed; the nodes started so far are distinct and are exactly those
    /// that left `Initialized`; `failed` records the first failure.
    pub open spec fn wf(self) -> bool {
        let n = self.states.len();
        &&& self.children.len() == n
        &&& forall|p: int, c: int|
            0 <= p < n && 0 <= c < self.children[p].len() ==> #[trigger] self.children[p][c] < p
        &&& forall|r: int| 0 <= r < self.roots.len() ==> #[trigger] self.roots[r] < n
        &&& forall|p: int, c: int|
            0 <= p < n && !(self.states[p] is Initialized) && 0 <= c < self.children[p].len()
                ==> self.states[#[trigger] self.children[p][c] as int] == TaskState::Done(0)
        &&& self.started.no_duplicates()
        &&& forall|x: int| 0 <= x < self.started.len() ==> #[trigger] self.started[x] < n
        &&& forall|p: int| 0 <= p < n ==> (!(#[trigger] self.states[p] is Initialized) <==> self.started.contains(p as usize))
        &&& match self.failed {
            Some((i, code)) => i < n && code != 0 && self.states[i as int] == TaskState::Done(code),
            None => forall|p: int| 0 <= p < n && #[trigger] self.states[p] is Done ==> self.states[p]->0 == 0,
        }
    }

    /// Node `p` may start: it has not, and all its children succeeded.
    pub open spec fn ready(self, p: int) -> bool {
        &&& 0 <= p < self.states.len()
        &&& self.states[p] is Initialized
        &&& forall|c: int| 0 <= c < self.children[p].len() ==> self.states[#[trigger] self.children[p][c] as int] == TaskState::Done(0)
    }

    /// `q` is reached from `p` by following children, in one step or more.
    pub open spec fn below(self, p: int, q: int) -> bool {
        exists|w: Seq<int>|
            #![trigger w.len(), self.walk(w)]
            w.len() >= 2 && self.walk(w) && w[0] == p && w.last() == q
    }

    /// Each element of `w` is a child of the one before.
    pub open spec fn walk(self, w: Seq<int>) -> bool {
        &&& forall|m: int| 0 <= m < w.len() ==> 0 <= #[trigger] w[m] < self.states.len()
        &&& forall|m: int| 0 <= m < w.len() - 1 ==> #[trigger] self.child_of(w[m], w[m + 1])
    }

    /// Node `b` is a child of node `a`.
    pub open spec fn child_of(self, a: int, b: int) -> bool {
        exists|c: int| 0 <= c < self.children[a].len() && #[trigger] self.children[a][c] as int == b
    }
}

/// Decides which task of a forest runs next, records how each ended, and
/// stops starting tasks after the first failure.
pub struct Executor {
    children: Vec<Vec<usize>>,
    roots: Vec<usize>,
    states: Vec<TaskState>,
    failed: Option<(usize, i32)>,
    started: Ghost<Seq<usize>>,
}

impl View for Executor {
    type V = ExecView;

    closed spec fn view(&self) -> ExecView {
        ExecView {
            children: self.children@.map_values(|v: Vec<usize>| v@),
            roots: self.roots@,
            states: self.states@,
            failed: self.failed,
            started: self.started@,
        }
    }
}

impl Executor {
    /// A run over `forest` in which nothing has started.
    pub fn new<D: DigraphItem>(forest: &Forest<D>) -> (r: Executor)
        requires
            forest.wf(),
        ensures
            r@.wf(),
            r@.states.len() == forest.nodes.len(),
            forall|p: int| 0 <= p < forest.nodes.len() ==> #[trigger] r@.children[p] == forest.nodes@[p].children@,
            r@.roots == forest.roots@,
            forall|p: int| 0 <= p < r@.states.len() ==> #[trigger] r@.states[p] == TaskState::Initialized,
            r@.failed is None,
            r@.started.len() == 0,
    {
        let n = forest.nodes.len();
        let mut children: Vec<Vec<usize>> = Vec::new();
        let mut states: Vec<TaskState> = Vec::new();
        let mut p: usize = 0;
        while p < n
            invariant
                n == forest.nodes.len(),
                forest.wf(),
                p <= n,
                children.len() == p,
                states.len() == p,
                forall|q: int| 0 <= q < p ==> (#[trigger] children@[q])@ == forest.nodes@[q].children@,
                forall|q: int| 0 <= q < p ==> #[trigger] states@[q] == TaskState::Initialized,
            decreases n - p,
        {
            let src = &forest.nodes[p].children;
            let mut v: Vec<usize> = Vec::new();
            let mut c: usize = 0;
            while c < src.len()
                invariant
                    c <= src.len(),
                    v@ == src@.take(c as int),
                decreases src.len() - c,
            {
                v.push(src[c]);
                proof {
                    assert(src@.take(c + 1) =~= src@.take(c as int).push(src@[c as int]));
                }
                c = c + 1;
            }
            proof {
                assert(src@.take(src.len() as int) =~= src@);
            }
            children.push(v);
            states.push(TaskState::Initialized);
            p = p + 1;
        }
        let mut roots: Vec<usize> = Vec::new();
        let mut r: usize = 0;
        while r < forest.roots.len()
            invariant
                r <= forest.roots.len(),
                roots@ == forest.roots@.take(r as int),
            decreases forest.roots.len() - r,
        {
            roots.push(forest.roots[r]);
            proof {
                assert(forest.roots@.take(r + 1) =~= forest.roots@.take(r as int).push(forest.roots@[r as int]));
            }
            r = r + 1;
        }
        proof {
            assert(forest.roots@.take(forest.roots.len() as int) =~= forest.roots@);
        }
        let ex = Executor { children, roots, states, failed: None, started: Ghost(Seq::empty()) };
        proof {
            let v = ex@;
            assert forall|q: int, c: int| 0 <= q < n && 0 <= c < v.children[q].len() implies #[trigger] v.children[q][c] < q by {
                assert(forest.node_wf(q));
                assert(forest.nodes@[q].children@[c] < q);
            }
            assert forall|q: int| 0 <= q < n implies (!(#[trigger] v.states[q] is Initialized) <==> v.started.contains(q as usize)) by {
            }
        }
        ex
    }

    /// Starts the first node that may start, unless a task has failed: the
    /// caller runs its script and reports back through `finish`. Nothing
    /// comes back while a failure is recorded, or while no node may start.
    pub fn next_task(&mut self) -> (r: Option<usize>)
        requires
            old(self)@.wf(),
        ensures
            final(self)@.wf(),
            final(self)@.children == old(self)@.children,
            final(self)@.roots == old(self)@.roots,
            final(self)@.failed == old(self)@.failed,
            old(self)@.failed is Some ==> r is None,
            match r {
                Some(i) => {
                    &&& old(self)@.ready(i as int)
                    &&& forall|q: int| 0 <= q < i ==> !#[trigger] old(self)@.ready(q)
                    &&& final(self)@.states == old(self)@.states.update(i as int, TaskState::Processing)
                    &&& final(self)@.started == old(self)@.started.push(i)
                },
                None => {
                    &&& final(self)@ == old(self)@
                    &&& (old(self)@.failed is Some || forall|p: int| 0 <= p < old(self)@.states.len() ==> !#[trigger] old(self)@.ready(p))
                },
            },
    {
        if self.failed.is_some() {
            return None;
        }
        let n = self.states.len();
        let mut p: usize = 0;
        while p < n
            invariant
                self@ == old(self)@,
                self@.wf(),
                self@.failed is None,
                n == self.states.len(),
                p <= n,
                forall|q: int| 0 <= q < p ==> !#[trigger] self@.ready(q),
            decreases n - p,
        {
            if self.states[p] == TaskState::Initialized {
                let kids = &self.children[p];
                let mut c: usize = 0;
                let mut all_done = true;
                while c < kids.len()
                    invariant
                        c <= kids.len(),
                        kids@ == self@.children[p as int],
                        self@.wf(),
                        p < n,
                        n == self.states.len(),
                        all_done == (forall|d: int| 0 <= d < c ==> self@.states[#[trigger] kids@[d] as int] == TaskState::Done(0)),
                    decreases kids.len() - c,
                {
                    let k = kids[c];
                    proof {
                        assert(kids@[c as int] < p);
                    }
                    if self.states[k] != TaskState::Done(0) {
                        all_done = false;
                    }
                    c = c + 1;
                }
                if all_done {
                    let ghost before = self@;
                    self.states.set(p, TaskState::Processing);
                    proof {
                        self.started@ = self.started@.push(p);
                        let v = self@;
                        assert(v.children == before.children);
                        assert(v.roots == before.roots);
                        assert(v.failed == before.failed);
                        assert(v.states == before.states.update(p as int, TaskState::Processing));
                        assert forall|q: int, c2: int|
                            0 <= q < n && !(v.states[q] is Initialized) && 0 <= c2 < v.children[q].len()
                                implies v.states[#[trigger] v.children[q][c2] as int] == TaskState::Done(0) by {
                            let k = v.children[q][c2] as int;
                            assert(k < q);
                            if q != p {
                                assert(before.states[k] == TaskState::Done(0));
                            } else {
                                assert(kids@[c2] == k);
                            }
                        }
                        assert forall|q: int| 0 <= q < n implies (!(#[trigger] v.states[q] is Initialized) <==> v.started.contains(q as usize)) by {
                            if q != p {
                                assert(before.states[q] == v.states[q]);
                                if before.started.contains(q as usize) {
                                    let x = choose|x: int| 0 <= x < before.started.len() && before.started[x] == q as usize;
                                    assert(v.started[x] == q as usize);
                                }
                                if v.started.contains(q as usize) {
                                    let x = choose|x: int| 0 <= x < v.started.len() && v.started[x] == q as usize;
                                    assert(x < before.started.len());
                                }
                            } else {
                                assert(v.started[before.started.len() as int] == p);
                            }
                        }
                        assert(!before.started.contains(p));
                        assert forall|a: int, b: int| 0 <= a < v.started.len() && 0 <= b < v.started.len() && a != b implies v.started[a] != v.started[b] by {
                            if a < before.started.len() && b < before.started.len() {
                            } else if a == before.started.len() {
                                assert(v.started[b] == before.started[b]);
                            } else {
                                assert(v.started[a] == before.started[a]);
                            }
                        }
                        assert forall|x: int| 0 <= x < v.started.len() implies #[trigger] v.started[x] < n by {
                            if x < before.started.len() {
                                assert(v.started[x] == before.started[x]);
                            }
                        }
                        assert forall|q: int| 0 <= q < n && #[trigger] v.states[q] is Done implies v.states[q]->0 == 0 by {
                            if q != p {
                                assert(before.states[q] == v.states[q]);
                            }
                        }
                    }
                    return Some(p);
                }
            }
            p = p + 1;
        }
        None
    }

    /// Records that node `i`'s script ended with `exit_code`. A non-zero
    /// code is the run's failure, unless one is already recorded.
    pub fn finish(&mut self, i: usize, exit_code: i32)
        requires
            old(self)@.wf(),
            i < old(self)@.states.len(),
            old(self)@.states[i as int] == TaskState::Processing,
        ensures
            final(self)@.wf(),
            final(self)@.children == old(self)@.children,
            final(self)@.roots == old(self)@.roots,
            final(self)@.started == old(self)@.started,
            final(self)@.states == old(self)@.states.update(i as int, TaskState::Done(exit_code)),
            final(self)@.failed == (if old(self)@.failed is None && exit_code != 0 {
                Some((i, exit_code))
            } else {
                old(self)@.failed
            }),
    {
        let ghost before = self@;
        self.states.set(i, TaskState::Done(exit_code));
        if self.failed.is_none() && exit_code != 0 {
            self.failed = Some((i, exit_code));
        }
        proof {
            let v = self@;
            let n = v.states.len();
            assert(v.started == before.started);
            assert(v.children == before.children);
            assert(v.roots == before.roots);
            assert(v.states == before.states.update(i as int, TaskState::Done(exit_code)));
            assert forall|q: int, c2: int|
                0 <= q < n && !(v.states[q] is Initialized) && 0 <= c2 < v.children[q].len()
                    implies v.states[#[trigger] v.children[q][c2] as int] == TaskState::Done(0) by {
                let k = v.children[q][c2] as int;
                assert(before.states[q] != TaskState::Initialized);
                assert(before.states[k] == TaskState::Done(0));
            }
            assert forall|q: int| 0 <= q < n implies (!(#[trigger] v.states[q] is Initialized) <==> v.started.contains(q as usize)) by {
                assert(!(before.states[q] is Initialized) <==> before.started.contains(q as usize));
                if q == i {
                    assert(!(before.states[q] is Initialized));
                } else {
                    assert(before.states[q] == v.states[q]);
                }
            }
            match v.failed {
                Some((j, code)) => {
                    if j != i {
                        assert(before.states[j as int] == v.states[j as int]);
                    }
                },
                None => {
                    assert forall|q: int| 0 <= q < n && #[trigger] v.states[q] is Done implies v.states[q]->0 == 0 by {
                        if q != i {
                            assert(before.states[q] == v.states[q]);
                        }
                    }
                },
            }
        }
    }

    /// Whether the run failed, succeeded or goes on.
    pub fn status(&self) -> (r: RunStatus)
        requires
            self@.wf(),
        ensures
            match r {
                RunStatus::Failed(i, code) => self@.failed == Some((i, code)),
                RunStatus::Succeeded => self@.failed is None && forall|t: int|
                    0 <= t < self@.roots.len() ==> self@.states[#[trigger] self@.roots[t] as int] == TaskState::Done(0),
                RunStatus::Pending => self@.failed is None && exists|t: int|
                    0 <= t < self@.roots.len() && self@.states[#[trigger] self@.roots[t] as int] != TaskState::Done(0),
            },
    {
        match self.failed {
            Some((i, code)) => RunStatus::Failed(i, code),
            None => {
                let mut t: usize = 0;
                while t < self.roots.len()
                    invariant
                        self@.wf(),
                        self@.failed is None,
                        t <= self.roots.len(),
                        forall|u: int| 0 <= u < t ==> self@.states[#[trigger] self@.roots[u] as int] == TaskState::Done(0),
                    decreases self.roots.len() - t,
                {
                    let k = self.roots[t];
                    if self.states[k] != TaskState::Done(0) {
                        return RunStatus::Pending;
                    }
                    t = t + 1;
                }
                RunStatus::Succeeded
            },
        }
    }

    /// The children of node `i`.
    pub fn children_of(&self, i: usize) -> (r: &Vec<usize>)
        requires
            i < self@.children.len(),
        ensures
            r@ == self@.children[i as int],
    {
        &self.children[i]
    }
}

/// No node is ever started twice: the nodes started in a run are distinct,
/// in every state that `new`, `next_task` and `finish` lead to.
pub proof fn lemma_runs_at_most_once(v: ExecView)
    requires
        v.wf(),
    ensures
        v.started.no_duplicates(),
        forall|x: int| 0 <= x < v.started.len() ==> !(v.states[#[trigger] v.started[x] as int] is Initialized),
{
    assert forall|x: int| 0 <= x < v.started.len() implies !(v.states[#[trigger] v.started[x] as int] is Initialized) by {
        let p = v.started[x] as int;
        assert(v.started.contains(p as usize));
    }
}

/// A node starts only after everything below it succeeded: once a node has
/// left `Initialized`, every node reached from it through children is done
/// with exit code 0.
pub proof fn lemma_dependency_order(v: ExecView, p: int, q: int)
    requires
        v.wf(),
        0 <= p < v.states.len(),
        !(v.states[p] is Initialized),
        v.below(p, q),
    ensures
        v.states[q] == TaskState::Done(0),
{
    let w = choose|w: Seq<int>| #![trigger w.len(), v.walk(w)] w.len() >= 2 && v.walk(w) && w[0] == p && w.last() == q;
    lemma_walk_done(v, w, w.len() - 1);
}

proof fn lemma_walk_done(v: ExecView, w: Seq<int>, m: int)
    requires
        v.wf(),
        v.walk(w),
        w.len() >= 2,
        !(v.states[w[0]] is Initialized),
        1 <= m < w.len(),
    ensures
        v.states[w[m]] == TaskState::Done(0),
    decreases m,
{
    if m > 1 {
        lemma_walk_done(v, w, m - 1);
    }
    let k = m - 1;
    let a = w[k];
    assert(v.child_of(w[k], w[k + 1]));
    assert(w[k + 1] == w[m]);
    assert(!(v.states[a] is Initialized));
    let c = choose|c: int| 0 <= c < v.children[a].len() && #[trigger] v.children[a][c] as int == w[m];
    assert(0 <= a < v.states.len());
    assert(v.states[v.children[a][c] as int] == TaskState::Done(0));
}

/// A run that has not failed and has nothing running can always go on: if
/// no node may start, every node has succeeded.
pub proof fn lemma_progress(v: ExecView)
    requires
        v.wf(),
        v.failed is None,
        forall|p: int| 0 <= p < v.states.len() ==> #[trigger] v.states[p] != TaskState::Processing,
        forall|p: int| 0 <= p < v.states.len() ==> !#[trigger] v.ready(p),
    ensures
        forall|p: int| 0 <= p < v.states.len() ==> #[trigger] v.states[p] == TaskState::Done(0),
{
    assert forall|p: int| 0 <= p < v.states.len() implies #[trigger] v.states[p] == TaskState::Done(0) by {
        lemma_progress_upto(v, p);
    }
}

proof fn lemma_progress_upto(v: ExecView, p: int)
    requires
        v.wf(),
        v.failed is None,
        forall|q: int| 0 <= q < v.states.len() ==> #[trigger] v.states[q] != TaskState::Processing,
        forall|q: int| 0 <= q < v.states.len() ==> !#[trigger] v.ready(q),
        0 <= p < v.states.len(),
    ensures
        v.states[p] == TaskState::Done(0),
    decreases p,
{
    assert forall|c: int| 0 <= c < v.children[p].len() implies v.states[#[trigger] v.children[p][c] as int] == TaskState::Done(0) by {
        assert(v.children[p][c] < p);
        lemma_progress_upto(v, v.children[p][c] as int);
    }
    assert(!v.ready(p));
    assert(v.states[p] != TaskState::Processing);
    if v.states[p] is Done {
        assert(v.states[p]->0 == 0);
    }
}

/// No task key runs twice: in a forest whose keys are distinct, the nodes
/// started in a run carry distinct keys.
pub proof fn lemma_key_runs_once<D: DigraphItem>(f: Forest<D>, v: ExecView, x: int, y: int)
    requires
        f.keys_distinct(),
        v.wf(),
        v.states.len() == f.nodes.len(),
        0 <= x < v.started.len(),
        0 <= y < v.started.len(),
        x != y,
    ensures
        f.nodes@[v.started[x] as int].key@ != f.nodes@[v.started[y] as int].key@,
{
    assert(v.started[x] < v.states.len());
    assert(v.started[y] < v.states.len());
    assert(v.started[x] != v.started[y]);
}

} // verus!
