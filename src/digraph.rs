//! Dependency trees: the forest of a set of targets over a list of task
//! definitions, sharing every node reached along several paths and refusing
//! missing keys and cycles.

use vstd::prelude::*;

use crate::taskkey::{KeyText, TaskKey};

verus! {

/// The texts of a list of keys.
pub open spec fn key_texts(s: Seq<TaskKey>) -> Seq<KeyText> {
    s.map_values(|k: TaskKey| k@)
}

/// A vertex of a directed graph: it names the keys it depends on.
pub trait DigraphItem {
    /// The keys this vertex depends on, in order.
    spec fn children_spec(&self) -> Seq<KeyText>;

    /// The keys this vertex depends on, in order.
    fn children(&self) -> (r: &Vec<TaskKey>)
        ensures
            key_texts(r@) == self.children_spec(),
    ;
}

/// The graph that a list of definitions describes: vertex `i` has key
/// `keys[i]` and depends on the keys `deps[i]`.
pub struct Digraph {
    pub keys: Seq<KeyText>,
    pub deps: Seq<Seq<KeyText>>,
}

impl Digraph {
    /// Keys are distinct and each vertex has its list of dependencies.
    pub open spec fn wf(self) -> bool {
        &&& self.keys.len() == self.deps.len()
        &&& forall|a: int, b: int|
            0 <= a < self.keys.len() && 0 <= b < self.keys.len() && a != b ==> self.keys[a]
                != self.keys[b]
    }

    pub open spec fn defines(self, k: KeyText) -> bool {
        self.keys.contains(k)
    }

    /// Vertex `a` depends on vertex `b`.
    pub open spec fn edge(self, a: int, b: int) -> bool {
        &&& 0 <= a < self.keys.len()
        &&& 0 <= b < self.keys.len()
        &&& self.deps[a].contains(self.keys[b])
    }

    /// `p` is a walk along dependency edges.
    pub open spec fn is_path(self, p: Seq<int>) -> bool {
        &&& p.len() > 0
        &&& forall|m: int| 0 <= m < p.len() ==> 0 <= #[trigger] p[m] < self.keys.len()
        &&& forall|m: int| 0 <= m < p.len() - 1 ==> #[trigger] self.edge(p[m], p[m + 1])
    }

    /// Vertex `j` is reached from one of the `roots` keys.
    pub open spec fn reachable(self, roots: Seq<KeyText>, j: int) -> bool {
        exists|p: Seq<int>| #[trigger]
            self.is_path(p) && roots.contains(self.keys[p[0]]) && p.last() == j
    }

    /// Vertex `j` lies on a cycle.
    pub open spec fn on_cycle(self, j: int) -> bool {
        exists|p: Seq<int>| #[trigger] self.is_path(p) && p.len() >= 2 && p[0] == j && p.last() == j
    }

    /// Key `k` is asked for, as a root or by a reached vertex, and not defined.
    pub open spec fn missing(self, roots: Seq<KeyText>, k: KeyText) -> bool {
        &&& !self.defines(k)
        &&& (roots.contains(k) || exists|i: int| #[trigger]
            self.reachable(roots, i) && self.deps[i].contains(k))
    }

    /// Nothing reached from `roots` is missing, and no reached vertex lies on
    /// a cycle.
    pub open spec fn buildable(self, roots: Seq<KeyText>) -> bool {
        &&& forall|k: KeyText| !#[trigger] self.missing(roots, k)
        &&& forall|j: int| 0 <= j < self.keys.len() && #[trigger] self.reachable(roots, j)
            ==> !self.on_cycle(j)
    }
}

/// The graph of a list of definitions.
pub open spec fn graph_of<D: DigraphItem>(defs: Seq<(TaskKey, D)>) -> Digraph {
    Digraph {
        keys: defs.map_values(|e: (TaskKey, D)| e.0@),
        deps: defs.map_values(|e: (TaskKey, D)| e.1.children_spec()),
    }
}

/// A node of the dependency forest. Children are indices into the forest's
/// node list, so a node shared by several parents appears once.
pub struct TreeNode<D> {
    pub key: TaskKey,
    pub item: D,
    pub children: Vec<usize>,
}

/// The trees built for a list of targets: `roots[t]` is the node of the
/// `t`-th target.
pub struct Forest<D> {
    pub nodes: Vec<TreeNode<D>>,
    pub roots: Vec<usize>,
}

impl<D: DigraphItem> Forest<D> {
    /// Every child comes before its parent, and the children of a node are
    /// the nodes of the keys its item depends on, in order.
    pub open spec fn wf(&self) -> bool {
        &&& forall|r: int| 0 <= r < self.roots.len() ==> #[trigger] self.roots@[r] < self.nodes.len()
        &&& forall|p: int| 0 <= p < self.nodes.len() ==> #[trigger] self.node_wf(p)
    }

    pub open spec fn node_wf(&self, p: int) -> bool {
        let nd = self.nodes@[p];
        &&& nd.children.len() == nd.item.children_spec().len()
        &&& forall|c: int|
            0 <= c < nd.children.len() ==> {
                &&& #[trigger] nd.children@[c] < p
                &&& self.nodes@[nd.children@[c] as int].key@ == nd.item.children_spec()[c]
            }
    }

    /// No key has two nodes.
    pub open spec fn keys_distinct(&self) -> bool {
        forall|p: int, q: int|
            0 <= p < self.nodes.len() && 0 <= q < self.nodes.len() && p != q
                ==> self.nodes@[p].key@ != self.nodes@[q].key@
    }
}

/// Why no forest could be built.
pub enum TreeNodeCreationError {
    /// A key that was asked for has no definition.
    ItemNotFound(TaskKey),
    /// A key depends on itself, directly or through others.
    CircularDependency(TaskKey),
}

/// Where a definition stands during the build.
#[derive(Clone, Copy, PartialEq, Eq, Structural)]
enum Mark {
    New,
    Active,
    Built(usize),
}

spec fn count_new(s: Seq<Mark>) -> nat
    decreases s.len(),
{
    if s.len() == 0 {
        0
    } else {
        count_new(s.drop_last()) + if s.last() is New {
            1nat
        } else {
            0nat
        }
    }
}

proof fn lemma_count_new_mono(a: Seq<Mark>, b: Seq<Mark>)
    requires
        a.len() == b.len(),
        forall|j: int| 0 <= j < b.len() && (#[trigger] b[j]) is New ==> a[j] is New,
    ensures
        count_new(b) <= count_new(a),
        (exists|k: int| 0 <= k < a.len() && a[k] is New && !(b[k] is New)) ==> count_new(b)
            < count_new(a),
    decreases a.len(),
{
    if a.len() > 0 {
        let a2 = a.drop_last();
        let b2 = b.drop_last();
        assert forall|j: int| 0 <= j < b2.len() && (#[trigger] b2[j]) is New implies a2[j] is New by {
            assert(b[j] is New);
        }
        lemma_count_new_mono(a2, b2);
        if exists|k: int| 0 <= k < a.len() && a[k] is New && !(b[k] is New) {
            let k = choose|k: int| 0 <= k < a.len() && a[k] is New && !(b[k] is New);
            if k < a.len() - 1 {
                assert(a2[k] is New && !(b2[k] is New));
            }
        }
    }
}

/// The state of a build, related to the graph, the items as given and the
/// stack of vertices being visited.
spec fn inv<D: DigraphItem>(
    g: Digraph,
    roots: Seq<KeyText>,
    orig: Seq<D>,
    keys: Seq<TaskKey>,
    items: Seq<Option<D>>,
    marks: Seq<Mark>,
    nodes: Seq<TreeNode<D>>,
    owner: Seq<int>,
    stack: Seq<int>,
) -> bool {
    let n = g.keys.len();
    &&& g.wf()
    &&& keys.len() == n
    &&& items.len() == n
    &&& marks.len() == n
    &&& orig.len() == n
    &&& forall|j: int| 0 <= j < n ==> (#[trigger] keys[j])@ == g.keys[j]
    &&& forall|j: int| 0 <= j < n ==> (#[trigger] orig[j]).children_spec() == g.deps[j]
    &&& forall|j: int|
        0 <= j < n ==> ((#[trigger] marks[j]) is New <==> items[j] is Some) && (marks[j] is New
            ==> items[j] == Some(orig[j]))
    &&& forall|j: int| 0 <= j < n ==> ((#[trigger] marks[j]) is Active <==> stack.contains(j))
    &&& owner.len() == nodes.len()
    &&& forall|j: int|
        0 <= j < n && (#[trigger] marks[j]) is Built ==> marks[j]->0 < nodes.len() && owner[marks[j]->0 as int] == j
    &&& forall|p: int| 0 <= p < nodes.len() ==> #[trigger] node_ok(g, roots, orig, marks, nodes, owner, p)
}

spec fn node_ok<D: DigraphItem>(
    g: Digraph,
    roots: Seq<KeyText>,
    orig: Seq<D>,
    marks: Seq<Mark>,
    nodes: Seq<TreeNode<D>>,
    owner: Seq<int>,
    p: int,
) -> bool {
    let j = owner[p];
    let nd = nodes[p];
    &&& 0 <= j < g.keys.len()
    &&& marks[j] == Mark::Built(p as usize)
    &&& nd.key@ == g.keys[j]
    &&& nd.item == orig[j]
    &&& g.reachable(roots, j)
    &&& nd.children.len() == g.deps[j].len()
    &&& forall|c: int|
        0 <= c < nd.children.len() ==> {
            &&& #[trigger] nd.children@[c] < p
            &&& nodes[nd.children@[c] as int].key@ == g.deps[j][c]
        }
}

fn find_key(keys: &Vec<TaskKey>, k: &TaskKey) -> (r: Option<usize>)
    ensures
        match r {
            Some(j) => j < keys.len() && keys@[j as int]@ == k@,
            None => forall|j: int| 0 <= j < keys.len() ==> (#[trigger] keys@[j])@ != k@,
        },
{
    let mut j: usize = 0;
    while j < keys.len()
        invariant
            j <= keys.len(),
            forall|i: int| 0 <= i < j ==> (#[trigger] keys@[i])@ != k@,
        decreases keys.len() - j,
    {
        if keys[j].same_key(k) {
            return Some(j);
        }
        j = j + 1;
    }
    None
}

proof fn lemma_path_step(g: Digraph, roots: Seq<KeyText>, i: int, j: int)
    requires
        g.reachable(roots, i),
        g.edge(i, j),
    ensures
        g.reachable(roots, j),
{
    let p = choose|p: Seq<int>| #[trigger] g.is_path(p) && roots.contains(g.keys[p[0]]) && p.last() == i;
    let q = p.push(j);
    assert forall|m: int| 0 <= m < q.len() - 1 implies #[trigger] g.edge(q[m], q[m + 1]) by {
        if m < p.len() - 1 {
            assert(g.edge(p[m], p[m + 1]));
        }
    }
    assert forall|m: int| 0 <= m < q.len() implies 0 <= #[trigger] q[m] < g.keys.len() by {
        if m < p.len() {
            assert(0 <= p[m] < g.keys.len());
        }
    }
    assert(g.is_path(q));
}

proof fn lemma_path_push(g: Digraph, s: Seq<int>, j: int)
    requires
        g.is_path(s),
        g.edge(s.last(), j),
    ensures
        g.is_path(s.push(j)),
{
    let q = s.push(j);
    assert forall|m: int| 0 <= m < q.len() - 1 implies #[trigger] g.edge(q[m], q[m + 1]) by {
        if m < s.len() - 1 {
            assert(g.edge(s[m], s[m + 1]));
        }
    }
    assert forall|m: int| 0 <= m < q.len() implies 0 <= #[trigger] q[m] < g.keys.len() by {
        if m < s.len() {
            assert(0 <= s[m] < g.keys.len());
        }
    }
}

/// A walk that returns to one of its own vertices closes a cycle through it.
proof fn lemma_stack_cycle(g: Digraph, s: Seq<int>, m: int)
    requires
        g.is_path(s),
        0 <= m < s.len(),
        g.edge(s.last(), s[m]),
    ensures
        g.on_cycle(s[m]),
{
    let q = s.subrange(m, s.len() as int).push(s[m]);
    assert forall|x: int| 0 <= x < q.len() - 1 implies #[trigger] g.edge(q[x], q[x + 1]) by {
        if x < q.len() - 2 {
            assert(q[x] == s[m + x]);
            assert(q[x + 1] == s[m + x + 1]);
            assert(g.edge(s[m + x], s[m + x + 1]));
        }
    }
    assert forall|x: int| 0 <= x < q.len() implies 0 <= #[trigger] q[x] < g.keys.len() by {
        if x < q.len() - 1 {
            assert(q[x] == s[m + x]);
        }
    }
    assert(g.is_path(q));
}

/// Builds the node of vertex `i` and of everything below it that is not
/// built yet.
fn visit<D: DigraphItem>(
    i: usize,
    keys: &Vec<TaskKey>,
    items: &mut Vec<Option<D>>,
    marks: &mut Vec<Mark>,
    nodes: &mut Vec<TreeNode<D>>,
    owner: &mut Ghost<Seq<int>>,
    Ghost(g): Ghost<Digraph>,
    Ghost(roots): Ghost<Seq<KeyText>>,
    Ghost(orig): Ghost<Seq<D>>,
    Ghost(stack): Ghost<Seq<int>>,
    Ghost(fuel): Ghost<nat>,
) -> (r: Result<usize, TreeNodeCreationError>)
    requires
        inv(g, roots, orig, keys@, old(items)@, old(marks)@, old(nodes)@, old(owner)@, stack),
        i < g.keys.len(),
        old(marks)@[i as int] is New,
        g.is_path(stack.push(i as int)),
        forall|x: int| 0 <= x < stack.push(i as int).len() ==> g.reachable(roots, #[trigger] stack.push(i as int)[x]),
        count_new(old(marks)@) <= fuel,
    ensures
        match r {
            Ok(p) => {
                &&& inv(g, roots, orig, keys@, final(items)@, final(marks)@, final(nodes)@, final(owner)@, stack)
                &&& final(marks)@[i as int] == Mark::Built(p)
                &&& forall|j: int| 0 <= j < g.keys.len() && (#[trigger] old(marks)@[j]) is Built ==> final(marks)@[j] == old(marks)@[j]
                &&& forall|j: int| 0 <= j < g.keys.len() && (#[trigger] final(marks)@[j]) is New ==> old(marks)@[j] is New
                &&& final(nodes)@.len() >= old(nodes)@.len()
                &&& forall|q: int| 0 <= q < old(nodes)@.len() ==> #[trigger] final(nodes)@[q] == old(nodes)@[q]
            },
            Err(TreeNodeCreationError::ItemNotFound(k)) => g.missing(roots, k@),
            Err(TreeNodeCreationError::CircularDependency(k)) => exists|j: int|
                0 <= j < g.keys.len() && g.keys[j] == k@ && g.reachable(roots, j) && #[trigger] g.on_cycle(j),
        },
    decreases fuel,
{
    let ghost n = g.keys.len();
    let ghost stack2 = stack.push(i as int);
    let ghost marks0 = marks@;
    let ghost nodes0 = nodes@;
    let mut taken: Option<D> = None;
    items.set_and_swap(i, &mut taken);
    marks.set(i, Mark::Active);
    proof {
        assert(count_new(marks@) < count_new(marks0)) by {
            lemma_count_new_mono(marks0, marks@);
        }
        assert forall|j: int| 0 <= j < n implies ((#[trigger] marks@[j]) is Active <==> stack2.contains(j)) by {
            if j == i {
                assert(stack2[stack.len() as int] == j);
            } else {
                assert(marks@[j] == marks0[j]);
                assert(marks0[j] is Active <==> stack.contains(j));
                if stack2.contains(j) {
                    let x = choose|x: int| 0 <= x < stack2.len() && stack2[x] == j;
                    assert(stack[x] == j);
                }
                if stack.contains(j) {
                    let x = choose|x: int| 0 <= x < stack.len() && stack[x] == j;
                    assert(stack2[x] == j);
                }
            }
        }
        assert forall|p: int| 0 <= p < nodes@.len() implies #[trigger] node_ok(g, roots, orig, marks@, nodes@, owner@, p) by {
            assert(node_ok(g, roots, orig, marks0, nodes@, owner@, p));
        }
        assert(g.reachable(roots, i as int)) by {
            assert(stack2[stack.len() as int] == i);
        }
    }
    let item = match taken {
        Some(d) => d,
        None => {
            // A vertex that was new still held its item.
            proof {
                assert(false);
            }
            return Err(TreeNodeCreationError::ItemNotFound(keys[i].clone()));
        },
    };
    let deps = item.children();
    let mut children: Vec<usize> = Vec::new();
    let mut c: usize = 0;
    while c < deps.len()
        invariant
            inv(g, roots, orig, keys@, items@, marks@, nodes@, owner@, stack2),
            n == g.keys.len(),
            i < n,
            stack2 == stack.push(i as int),
            item == orig[i as int],
            key_texts(deps@) == g.deps[i as int],
            marks@[i as int] is Active,
            g.is_path(stack2),
            stack2.last() == i,
            forall|x: int| 0 <= x < stack2.len() ==> g.reachable(roots, #[trigger] stack2[x]),
            g.reachable(roots, i as int),
            c <= deps.len(),
            children.len() == c,
            forall|d: int| 0 <= d < c ==> {
                &&& #[trigger] children@[d] < nodes@.len()
                &&& nodes@[children@[d] as int].key@ == g.deps[i as int][d]
            },
            count_new(marks@) < fuel,
            forall|j: int| 0 <= j < n && (#[trigger] marks0[j]) is Built ==> marks@[j] == marks0[j],
            forall|j: int| 0 <= j < n && j != i && (#[trigger] marks@[j]) is New ==> marks0[j] is New,
            nodes@.len() >= nodes0.len(),
            forall|q: int| 0 <= q < nodes0.len() ==> #[trigger] nodes@[q] == nodes0[q],
        decreases deps.len() - c,
    {
        let dk = &deps[c];
        proof {
            assert(key_texts(deps@)[c as int] == dk@);
        }
        let found = find_key(keys, dk);
        let j = match found {
            Some(j) => j,
            None => {
                proof {
                    assert(!g.defines(dk@)) by {
                        if g.keys.contains(dk@) {
                            let x = choose|x: int| 0 <= x < n && g.keys[x] == dk@;
                            assert(keys@[x]@ == g.keys[x]);
                        }
                    }
                    assert(g.deps[i as int][c as int] == dk@);
                    assert(g.deps[i as int].contains(dk@));
                    assert(g.missing(roots, dk@));
                }
                return Err(TreeNodeCreationError::ItemNotFound(dk.clone()));
            },
        };
        proof {
            assert(keys@[j as int]@ == g.keys[j as int]);
            assert(g.deps[i as int][c as int] == g.keys[j as int]);
            assert(g.edge(i as int, j as int));
            lemma_path_step(g, roots, i as int, j as int);
        }
        match marks[j] {
            Mark::Active => {
                proof {
                    assert(stack2.contains(j as int));
                    let m = choose|m: int| 0 <= m < stack2.len() && stack2[m] == j;
                    lemma_stack_cycle(g, stack2, m);
                    assert(g.keys[j as int] == dk@);
                }
                return Err(TreeNodeCreationError::CircularDependency(dk.clone()));
            },
            Mark::Built(p) => {
                proof {
                    assert(node_ok(g, roots, orig, marks@, nodes@, owner@, p as int));
                }
                children.push(p);
            },
            Mark::New => {
                let ghost marks1 = marks@;
                let ghost nodes1 = nodes@;
                proof {
                    lemma_path_push(g, stack2, j as int);
                    assert forall|x: int| 0 <= x < stack2.push(j as int).len() implies g.reachable(roots, #[trigger] stack2.push(j as int)[x]) by {
                        if x < stack2.len() {
                            assert(stack2.push(j as int)[x] == stack2[x]);
                        }
                    }
                }
                let r = visit(j, keys, items, marks, nodes, owner, Ghost(g), Ghost(roots), Ghost(orig), Ghost(stack2), Ghost((fuel - 1) as nat));
                match r {
                    Ok(p) => {
                        proof {
                            assert(node_ok(g, roots, orig, marks@, nodes@, owner@, p as int));
                            lemma_count_new_mono(marks1, marks@);
                            assert forall|q: int| 0 <= q < nodes0.len() implies #[trigger] nodes@[q] == nodes0[q] by {
                                assert(nodes@[q] == nodes1[q]);
                            }
                            assert forall|j2: int| 0 <= j2 < n && (#[trigger] marks0[j2]) is Built implies marks@[j2] == marks0[j2] by {
                                assert(marks1[j2] == marks0[j2]);
                            }
                            assert forall|j2: int| 0 <= j2 < n && j2 != i && (#[trigger] marks@[j2]) is New implies marks0[j2] is New by {
                                assert(marks1[j2] is New);
                            }
                            assert(marks@[i as int] is Active) by {
                                assert(stack2.contains(i as int)) by {
                                    assert(stack2[stack.len() as int] == i);
                                }
                            }
                            assert forall|d: int| 0 <= d < c implies {
                                &&& #[trigger] children@[d] < nodes@.len()
                                &&& nodes@[children@[d] as int].key@ == g.deps[i as int][d]
                            } by {
                                assert(nodes@[children@[d] as int] == nodes1[children@[d] as int]);
                            }
                        }
                        children.push(p);
                    },
                    Err(e) => {
                        return Err(e);
                    },
                }
            },
        }
        c = c + 1;
    }
    let ghost marks_b = marks@;
    let ghost nodes_b = nodes@;
    let ghost owner_b = owner@;
    let p = nodes.len();
    let key = keys[i].clone();
    nodes.push(TreeNode { key, item, children });
    proof {
        owner@ = owner@.push(i as int);
    }
    marks.set(i, Mark::Built(p));
    proof {
        assert(node_ok(g, roots, orig, marks@, nodes@, owner@, p as int));
        assert forall|q: int| 0 <= q < nodes@.len() implies #[trigger] node_ok(g, roots, orig, marks@, nodes@, owner@, q) by {
            if q < p {
                assert(node_ok(g, roots, orig, marks_b, nodes_b, owner_b, q));
                assert(nodes@[q] == nodes_b[q]);
                assert(owner@[q] == owner_b[q]);
                let nd = nodes@[q];
                assert forall|c2: int| 0 <= c2 < nd.children.len() implies {
                    &&& #[trigger] nd.children@[c2] < q
                    &&& nodes@[nd.children@[c2] as int].key@ == g.deps[owner@[q]][c2]
                } by {
                    assert(nodes_b[nd.children@[c2] as int] == nodes@[nd.children@[c2] as int]);
                }
                assert(marks@[owner@[q]] == Mark::Built(q as usize)) by {
                    assert(owner@[q] != i);
                }
            }
        }
        assert forall|j: int| 0 <= j < n implies ((#[trigger] marks@[j]) is Active <==> stack.contains(j)) by {
            if j != i {
                if stack.contains(j) {
                    let x = choose|x: int| 0 <= x < stack.len() && stack[x] == j;
                    assert(stack2[x] == j);
                } else {
                    if stack2.contains(j) {
                        let x = choose|x: int| 0 <= x < stack2.len() && stack2[x] == j;
                        assert(x < stack.len());
                        assert(stack[x] == j);
                    }
                }
            } else {
                assert(!stack.contains(j));
            }
        }
    }
    Ok(p)
}

/// A dependency of a built vertex is built, and its node comes first.
proof fn lemma_edge_built<D: DigraphItem>(
    g: Digraph,
    roots: Seq<KeyText>,
    orig: Seq<D>,
    keys: Seq<TaskKey>,
    items: Seq<Option<D>>,
    marks: Seq<Mark>,
    nodes: Seq<TreeNode<D>>,
    owner: Seq<int>,
    x: int,
    y: int,
)
    requires
        inv(g, roots, orig, keys, items, marks, nodes, owner, Seq::empty()),
        g.edge(x, y),
        marks[x] is Built,
    ensures
        marks[y] is Built,
        marks[y]->0 < marks[x]->0,
{
    let px = marks[x]->0 as int;
    assert(marks[x] is Built);
    assert(owner[px] == x);
    assert(node_ok(g, roots, orig, marks, nodes, owner, px));
    let c = choose|c: int| 0 <= c < g.deps[x].len() && g.deps[x][c] == g.keys[y];
    let nd = nodes[px];
    let cn = nd.children@[c] as int;
    assert(nd.children@[c] < px);
    assert(node_ok(g, roots, orig, marks, nodes, owner, cn));
    let y2 = owner[cn];
    assert(g.keys[y2] == g.keys[y]);
    assert(y2 == y);
}

/// Along a walk from a built vertex every vertex is built, and node indices
/// strictly fall.
proof fn lemma_path_built<D: DigraphItem>(
    g: Digraph,
    roots: Seq<KeyText>,
    orig: Seq<D>,
    keys: Seq<TaskKey>,
    items: Seq<Option<D>>,
    marks: Seq<Mark>,
    nodes: Seq<TreeNode<D>>,
    owner: Seq<int>,
    p: Seq<int>,
)
    requires
        inv(g, roots, orig, keys, items, marks, nodes, owner, Seq::empty()),
        g.is_path(p),
        marks[p[0]] is Built,
    ensures
        marks[p.last()] is Built,
        p.len() >= 2 ==> marks[p.last()]->0 < marks[p[0]]->0,
    decreases p.len(),
{
    if p.len() >= 2 {
        let q = p.drop_last();
        assert forall|m: int| 0 <= m < q.len() - 1 implies #[trigger] g.edge(q[m], q[m + 1]) by {
            assert(g.edge(p[m], p[m + 1]));
        }
        assert forall|m: int| 0 <= m < q.len() implies 0 <= #[trigger] q[m] < g.keys.len() by {
            assert(0 <= p[m] < g.keys.len());
        }
        lemma_path_built(g, roots, orig, keys, items, marks, nodes, owner, q);
        let m = p.len() - 2;
        assert(g.edge(p[m], p[m + 1]));
        lemma_edge_built(g, roots, orig, keys, items, marks, nodes, owner, q.last(), p.last());
    }
}

/// What a successful build hands back: one tree per target, every reached
/// definition once, and nothing else.
pub open spec fn builds<D: DigraphItem>(defs: Seq<(TaskKey, D)>, roots: Seq<KeyText>, f: Forest<D>) -> bool {
    let g = graph_of(defs);
    &&& f.wf()
    &&& f.keys_distinct()
    &&& f.roots.len() == roots.len()
    &&& forall|t: int| 0 <= t < roots.len() ==> f.nodes@[#[trigger] f.roots@[t] as int].key@ == roots[t]
    &&& forall|p: int|
        #![trigger f.nodes@[p]]
        0 <= p < f.nodes.len() ==> exists|j: int|
            #![trigger defs[j]]
            0 <= j < defs.len() && defs[j].0@ == f.nodes@[p].key@ && f.nodes@[p].item == defs[j].1
                && g.reachable(roots, j)
    &&& forall|j: int|
        0 <= j < defs.len() && #[trigger] g.reachable(roots, j) ==> exists|p: int|
            0 <= p < f.nodes.len() && #[trigger] f.nodes@[p].key@ == defs[j].0@
}

impl<D: DigraphItem> TreeNode<D> {
    /// Builds the trees of `targets` over the definitions `defs`, sharing
    /// the node of every key reached along several paths. Fails with
    /// `ItemNotFound` on a key that is asked for and not defined, and with
    /// `CircularDependency` on a reached key that lies on a cycle.
    #[verifier::loop_isolation(false)]
    pub fn new_vec(defs: Vec<(TaskKey, D)>, targets: Vec<TaskKey>) -> (r: Result<Forest<D>, TreeNodeCreationError>)
        requires
            graph_of(defs@).wf(),
        ensures
            r is Ok <==> graph_of(defs@).buildable(key_texts(targets@)),
            match r {
                Ok(f) => builds(defs@, key_texts(targets@), f),
                Err(TreeNodeCreationError::ItemNotFound(k)) => graph_of(defs@).missing(key_texts(targets@), k@),
                Err(TreeNodeCreationError::CircularDependency(k)) => exists|j: int|
                    0 <= j < defs@.len() && defs@[j].0@ == k@ && graph_of(defs@).reachable(key_texts(targets@), j)
                        && #[trigger] graph_of(defs@).on_cycle(j),
            },
    {
        let ghost defs0 = defs@;
        let ghost g = graph_of(defs@);
        let ghost roots = key_texts(targets@);
        let ghost orig = defs@.map_values(|e: (TaskKey, D)| e.1);
        let ghost n = defs@.len();
        let mut defs = defs;
        let mut keys: Vec<TaskKey> = Vec::new();
        let mut items: Vec<Option<D>> = Vec::new();
        let mut marks: Vec<Mark> = Vec::new();
        while defs.len() > 0
            invariant
                keys.len() + defs.len() == n,
                n == defs0.len(),
                defs@ == defs0.subrange(keys.len() as int, n as int),
                items.len() == keys.len(),
                marks.len() == keys.len(),
                forall|j: int| 0 <= j < keys.len() ==> (#[trigger] keys@[j])@ == defs0[j].0@,
                forall|j: int| 0 <= j < keys.len() ==> #[trigger] items@[j] == Some(defs0[j].1),
                forall|j: int| 0 <= j < keys.len() ==> #[trigger] marks@[j] == Mark::New,
            decreases defs.len(),
        {
            let (k, d) = defs.remove(0);
            proof {
                assert(defs0[keys.len() as int] == (k, d));
            }
            keys.push(k);
            items.push(Some(d));
            marks.push(Mark::New);
        }
        let mut nodes: Vec<TreeNode<D>> = Vec::new();
        let mut owner: Ghost<Seq<int>> = Ghost(Seq::empty());
        let mut root_ids: Vec<usize> = Vec::new();
        proof {
            assert forall|j: int| 0 <= j < n implies ((#[trigger] marks@[j]) is Active <==> Seq::<int>::empty().contains(j)) by {
                assert(marks@[j] == Mark::New);
            }
            assert forall|j: int| 0 <= j < n implies (#[trigger] orig[j]).children_spec() == g.deps[j] by {
            }
        }
        let mut t: usize = 0;
        while t < targets.len()
            invariant
                n == g.keys.len(),
                g == graph_of(defs0),
                roots == key_texts(targets@),
                orig == defs0.map_values(|e: (TaskKey, D)| e.1),
                inv(g, roots, orig, keys@, items@, marks@, nodes@, owner@, Seq::empty()),
                t <= targets.len(),
                root_ids.len() == t,
                forall|u: int| 0 <= u < t ==> #[trigger] root_ids@[u] < nodes.len() && nodes@[root_ids@[u] as int].key@ == targets@[u]@,
            decreases targets.len() - t,
        {
            let tk = &targets[t];
            proof {
                assert(roots[t as int] == tk@);
            }
            let j = match find_key(&keys, tk) {
                Some(j) => j,
                None => {
                    proof {
                        assert(roots.contains(tk@));
                        if g.keys.contains(tk@) {
                            let x = choose|x: int| 0 <= x < n && g.keys[x] == tk@;
                            assert(keys@[x]@ == g.keys[x]);
                        }
                        assert(g.missing(roots, tk@));
                    }
                    return Err(TreeNodeCreationError::ItemNotFound(tk.clone()));
                },
            };
            proof {
                assert(keys@[j as int]@ == g.keys[j as int]);
            }
            match marks[j] {
                Mark::Built(p) => {
                    proof {
                        assert(node_ok(g, roots, orig, marks@, nodes@, owner@, p as int));
                    }
                    root_ids.push(p);
                },
                Mark::Active => {
                    // No vertex is being visited between two targets.
                    proof {
                        assert(!Seq::<int>::empty().contains(j as int));
                        assert(false);
                    }
                    return Err(TreeNodeCreationError::ItemNotFound(tk.clone()));
                },
                Mark::New => {
                    let ghost nodes1 = nodes@;
                    let ghost fuel = count_new(marks@);
                    proof {
                        let s = Seq::<int>::empty().push(j as int);
                        assert(g.is_path(s));
                        assert(s[0] == j);
                        assert(g.reachable(roots, j as int));
                        assert forall|x: int| 0 <= x < s.len() implies g.reachable(roots, #[trigger] s[x]) by {
                            assert(s[x] == j);
                        }
                    }
                    let r = visit(j, &keys, &mut items, &mut marks, &mut nodes, &mut owner, Ghost(g), Ghost(roots), Ghost(orig), Ghost(Seq::empty()), Ghost(fuel));
                    match r {
                        Ok(p) => {
                            proof {
                                assert(node_ok(g, roots, orig, marks@, nodes@, owner@, p as int));
                                assert forall|u: int| 0 <= u < t implies #[trigger] root_ids@[u] < nodes.len() && nodes@[root_ids@[u] as int].key@ == targets@[u]@ by {
                                    assert(nodes@[root_ids@[u] as int] == nodes1[root_ids@[u] as int]);
                                }
                            }
                            root_ids.push(p);
                        },
                        Err(e) => {
                            proof {
                                assert(g.keys == defs0.map_values(|e: (TaskKey, D)| e.0@));
                            }
                            return Err(e);
                        },
                    }
                },
            }
            t = t + 1;
        }
        proof {
            assert forall|j: int| 0 <= j < n && #[trigger] g.reachable(roots, j) implies marks@[j] is Built by {
                let p = choose|p: Seq<int>| #[trigger] g.is_path(p) && roots.contains(g.keys[p[0]]) && p.last() == j;
                let u = choose|u: int| 0 <= u < roots.len() && roots[u] == g.keys[p[0]];
                let q = root_ids@[u] as int;
                assert(node_ok(g, roots, orig, marks@, nodes@, owner@, q));
                assert(g.keys[owner@[q]] == g.keys[p[0]]);
                assert(0 <= p[0] < n);
                lemma_path_built(g, roots, orig, keys@, items@, marks@, nodes@, owner@, p);
            }
            assert forall|j: int| 0 <= j < n && #[trigger] g.reachable(roots, j) implies !g.on_cycle(j) by {
                if g.on_cycle(j) {
                    let p = choose|p: Seq<int>| #[trigger] g.is_path(p) && p.len() >= 2 && p[0] == j && p.last() == j;
                    lemma_path_built(g, roots, orig, keys@, items@, marks@, nodes@, owner@, p);
                }
            }
            assert forall|k: KeyText| !#[trigger] g.missing(roots, k) by {
                if roots.contains(k) {
                    let u = choose|u: int| 0 <= u < roots.len() && roots[u] == k;
                    let q = root_ids@[u] as int;
                    assert(node_ok(g, roots, orig, marks@, nodes@, owner@, q));
                    assert(g.keys[owner@[q]] == k);
                } else if exists|i: int| #[trigger] g.reachable(roots, i) && g.deps[i].contains(k) {
                    let i = choose|i: int| #[trigger] g.reachable(roots, i) && g.deps[i].contains(k);
                    let p = choose|p: Seq<int>| #[trigger] g.is_path(p) && roots.contains(g.keys[p[0]]) && p.last() == i;
                    assert(0 <= p.last() < n);
                    assert(marks@[i] is Built);
                    let pi = marks@[i]->0 as int;
                    assert(node_ok(g, roots, orig, marks@, nodes@, owner@, pi));
                    let c = choose|c: int| 0 <= c < g.deps[i].len() && g.deps[i][c] == k;
                    let cn = nodes@[pi].children@[c] as int;
                    assert(node_ok(g, roots, orig, marks@, nodes@, owner@, cn));
                    assert(g.keys[owner@[cn]] == k);
                }
            }
        }
        let f = Forest { nodes, roots: root_ids };
        proof {
            assert forall|p: int| 0 <= p < f.nodes.len() implies #[trigger] f.node_wf(p) by {
                assert(node_ok(g, roots, orig, marks@, f.nodes@, owner@, p));
            }
            assert forall|p: int, q: int|
                0 <= p < f.nodes.len() && 0 <= q < f.nodes.len() && p != q implies f.nodes@[p].key@ != f.nodes@[q].key@ by {
                assert(node_ok(g, roots, orig, marks@, f.nodes@, owner@, p));
                assert(node_ok(g, roots, orig, marks@, f.nodes@, owner@, q));
            }
            assert forall|p: int| #![trigger f.nodes@[p]] 0 <= p < f.nodes.len() implies exists|j: int|
                #![trigger defs0[j]]
                0 <= j < defs0.len() && defs0[j].0@ == f.nodes@[p].key@ && f.nodes@[p].item == defs0[j].1
                    && g.reachable(roots, j) by {
                assert(node_ok(g, roots, orig, marks@, f.nodes@, owner@, p));
                let j = owner@[p];
                assert(defs0[j].0@ == g.keys[j]);
            }
            assert forall|j: int| 0 <= j < defs0.len() && #[trigger] g.reachable(roots, j) implies exists|p: int|
                0 <= p < f.nodes.len() && #[trigger] f.nodes@[p].key@ == defs0[j].0@ by {
                let p = marks@[j]->0 as int;
                assert(node_ok(g, roots, orig, marks@, f.nodes@, owner@, p));
                assert(defs0[j].0@ == g.keys[j]);
            }
        }
        Ok(f)
    }
}

/// Parents that depend on the same key share one child node: the node of a
/// task that several tasks depend on is one and the same for all of them.
pub proof fn lemma_shared_dependency<D: DigraphItem>(f: Forest<D>, pa: int, ca: int, pb: int, cb: int)
    requires
        f.wf(),
        f.keys_distinct(),
        0 <= pa < f.nodes.len(),
        0 <= pb < f.nodes.len(),
        0 <= ca < f.nodes@[pa].item.children_spec().len(),
        0 <= cb < f.nodes@[pb].item.children_spec().len(),
        f.nodes@[pa].item.children_spec()[ca] == f.nodes@[pb].item.children_spec()[cb],
    ensures
        f.nodes@[pa].children@[ca] == f.nodes@[pb].children@[cb],
{
    assert(f.node_wf(pa));
    assert(f.node_wf(pb));
    let a = f.nodes@[pa].children@[ca];
    let b = f.nodes@[pb].children@[cb];
    assert(a < pa && b < pb);
}

} // verus!
