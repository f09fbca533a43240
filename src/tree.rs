//! The operation graph: the nodes reachable from requested roots, their resolution order and
//! depth classification.
use vstd::prelude::*;

use crate::history::{GraphError, History};
use crate::node::{Factor, Node, State};

verus! {

/// Whether a graph's resolution order has been registered.
#[derive(Clone, Copy, Debug, PartialEq, Eq, Structural)]
pub enum TreeStatus {
    Pending,
    Ready,
}

impl TreeStatus {
    pub fn ok(self) -> (r: bool)
        ensures
            r == (self == TreeStatus::Ready),
    {
        match self {
            TreeStatus::Pending => false,
            TreeStatus::Ready => true,
        }
    }
}

/// Depth classification: `Singular` when every root's operands are already resolved, else
/// the deepest nesting of pending nodes and whether the order is registered.
#[derive(Clone, Copy, Debug, PartialEq, Eq, Structural)]
pub enum TreeDepth {
    Singular,
    Layered(usize, TreeStatus),
}

pub open spec fn registered(d: TreeDepth) -> TreeDepth {
    match d {
        TreeDepth::Singular => TreeDepth::Singular,
        TreeDepth::Layered(n, _) => TreeDepth::Layered(n, TreeStatus::Ready),
    }
}

impl TreeDepth {
    /// The classification once a resolution order has been registered.
    pub fn register(&self) -> (r: TreeDepth)
        ensures
            r == registered(*self),
    {
        match self {
            TreeDepth::Singular => TreeDepth::Singular,
            TreeDepth::Layered(n, _) => TreeDepth::Layered(*n, TreeStatus::Ready),
        }
    }
}

/// Operand `f` of node `i` is a node that still waits for evaluation.
pub open spec fn pending_operand(nodes: Seq<Node>, f: Factor, i: int) -> bool {
    match f {
        Factor::Node(j) => 0 <= j < i && nodes[j as int].state() == State::Pending,
        Factor::Bundle(_) => false,
    }
}

/// Node `j` takes the pending node `m` as an operand.
pub open spec fn consumes(nodes: Seq<Node>, j: int, m: int) -> bool {
    &&& 0 <= m < j < nodes.len()
    &&& nodes[m].state() == State::Pending
    &&& exists|q: int| 0 <= q < nodes[j].operands().len() && (#[trigger] nodes[j].operands()[q]).factor == Factor::Node(m as usize)
}

/// Node `i` must be evaluated, as far as the consumers at index `j` and above show: it is a
/// root, or a pending operand of such a consumer that must be evaluated itself.
pub open spec fn needed_from(nodes: Seq<Node>, roots: Seq<usize>, i: int, j: int) -> bool
    decreases nodes.len() - j,
{
    if j >= nodes.len() || j < 0 {
        0 <= i && roots.contains(i as usize)
    } else {
        needed_from(nodes, roots, i, j + 1) || (i < j && needed_from(nodes, roots, j, j + 1) && consumes(nodes, j, i))
    }
}

/// Node `i` belongs to the resolution order of `roots`.
pub open spec fn needed(nodes: Seq<Node>, roots: Seq<usize>, i: int) -> bool {
    needed_from(nodes, roots, i, i + 1)
}

/// The needed nodes below index `k`, ascending.
pub open spec fn order_upto(nodes: Seq<Node>, roots: Seq<usize>, k: int) -> Seq<usize>
    decreases k,
{
    if k <= 0 {
        Seq::<usize>::empty()
    } else if needed(nodes, roots, k - 1) {
        order_upto(nodes, roots, k - 1).push((k - 1) as usize)
    } else {
        order_upto(nodes, roots, k - 1)
    }
}

/// The resolution order: every node that the roots need, ascending, hence operands first.
pub open spec fn resolution_order(nodes: Seq<Node>, roots: Seq<usize>) -> Seq<usize> {
    order_upto(nodes, roots, nodes.len() as int)
}

/// Nesting of pending nodes under node `i`, `i` included.
pub open spec fn height(nodes: Seq<Node>, i: int) -> nat
    decreases i, 1int, 0int,
{
    if i < 0 || i >= nodes.len() {
        0
    } else {
        1 + max_operand(nodes, i, nodes[i].operands().len() as int)
    }
}

/// The largest height among the first `k` operands of node `i` that are pending nodes.
pub open spec fn max_operand(nodes: Seq<Node>, i: int, k: int) -> nat
    decreases i, 0int, k,
{
    if k <= 0 || i < 0 || i >= nodes.len() || k > nodes[i].operands().len() {
        0
    } else {
        let rest = max_operand(nodes, i, k - 1);
        let h = match nodes[i].operands()[k - 1].factor {
            Factor::Node(j) => if 0 <= j < i && nodes[j as int].state() == State::Pending {
                height(nodes, j as int)
            } else {
                0
            },
            Factor::Bundle(_) => 0,
        };
        if h > rest {
            h
        } else {
            rest
        }
    }
}

/// The largest height among the first `k` roots.
pub open spec fn max_height(nodes: Seq<Node>, roots: Seq<usize>, k: int) -> nat
    decreases k,
{
    if k <= 0 || k > roots.len() {
        0
    } else {
        let rest = max_height(nodes, roots, k - 1);
        let h = height(nodes, roots[k - 1] as int);
        if h > rest {
            h
        } else {
            rest
        }
    }
}

/// The classification of a fresh graph over `roots`.
pub open spec fn depth_of(nodes: Seq<Node>, roots: Seq<usize>) -> TreeDepth {
    let h = max_height(nodes, roots, roots.len() as int);
    if h <= 1 {
        TreeDepth::Singular
    } else {
        TreeDepth::Layered(h as usize, TreeStatus::Pending)
    }
}

proof fn lemma_height_bound(nodes: Seq<Node>, i: int)
    requires
        0 <= i,
    ensures
        height(nodes, i) <= i + 1,
    decreases i, 1int, 0int,
{
    if i < nodes.len() {
        lemma_max_operand_bound(nodes, i, nodes[i].operands().len() as int);
    }
}

proof fn lemma_max_operand_bound(nodes: Seq<Node>, i: int, k: int)
    requires
        0 <= i,
    ensures
        max_operand(nodes, i, k) <= i,
    decreases i, 0int, k,
{
    if k > 0 && i < nodes.len() && k <= nodes[i].operands().len() {
        lemma_max_operand_bound(nodes, i, k - 1);
        match nodes[i].operands()[k - 1].factor {
            Factor::Node(j) => if 0 <= j < i && nodes[j as int].state() == State::Pending {
                lemma_height_bound(nodes, j as int);
            },
            Factor::Bundle(_) => {},
        }
    }
}

proof fn lemma_max_height_bound(nodes: Seq<Node>, roots: Seq<usize>, k: int)
    ensures
        max_height(nodes, roots, k) <= nodes.len(),
    decreases k,
{
    if k > 0 && k <= roots.len() {
        lemma_max_height_bound(nodes, roots, k - 1);
        let r = roots[k - 1] as int;
        if r < nodes.len() {
            lemma_height_bound(nodes, r);
        }
    }
}

/// `b` is graph `a` after a traversal over `nodes`.
pub open spec fn traversed(nodes: Seq<Node>, a: NodeTree, b: NodeTree) -> bool {
    &&& b.roots() == a.roots()
    &&& b.order() == resolution_order(nodes, a.roots())
    &&& b.depth() == registered(a.depth())
    &&& b.running() == a.running()
}

/// A graph over the nodes of an arena: its roots, the registered resolution order, its depth
/// classification and whether execution has begun.
pub struct NodeTree {
    roots: Vec<usize>,
    order: Vec<usize>,
    depth: TreeDepth,
    context: bool,
}

impl NodeTree {
    pub closed spec fn roots(&self) -> Seq<usize> {
        self.roots@
    }

    pub closed spec fn order(&self) -> Seq<usize> {
        self.order@
    }

    pub closed spec fn depth(&self) -> TreeDepth {
        self.depth
    }

    /// Execution has begun.
    pub closed spec fn running(&self) -> bool {
        self.context
    }

    /// Every root and every node of the registered order is a node of `nodes`.
    pub open spec fn wf(&self, nodes: Seq<Node>) -> bool {
        &&& forall|k: int| 0 <= k < self.roots().len() ==> ((#[trigger] self.roots()[k]) as int) < nodes.len()
        &&& forall|k: int| 0 <= k < self.order().len() ==> ((#[trigger] self.order()[k]) as int) < nodes.len()
    }

    /// Heights of every node of the arena.
    fn heights(history: &History) -> (r: Vec<usize>)
        requires
            history.wf(),
        ensures
            r@.len() == history.nodes().len(),
            forall|m: int| 0 <= m < r@.len() ==> r@[m] == height(history.nodes(), m),
    {
        let ghost nodes = history.nodes();
        let n = history.fetch();
        let mut hs: Vec<usize> = Vec::new();
        let mut i: usize = 0;
        while i < n
            invariant
                n == nodes.len(),
                nodes == history.nodes(),
                i <= n,
                hs@.len() == i,
                forall|m: int| 0 <= m < i ==> hs@[m] == height(nodes, m),
            decreases n - i,
        {
            let node = history.index(i);
            let len = node.len();
            let mut best: usize = 0;
            let mut k: usize = 0;
            while k < len
                invariant
                    n == nodes.len(),
                    nodes == history.nodes(),
                    i < n,
                    *node == nodes[i as int],
                    len == nodes[i as int].operands().len(),
                    k <= len,
                    hs@.len() == i,
                    forall|m: int| 0 <= m < i ==> hs@[m] == height(nodes, m),
                    best == max_operand(nodes, i as int, k as int),
                decreases len - k,
            {
                let o = node.operand(k);
                match o.factor {
                    Factor::Node(j) => {
                        if j < i && !history.index(j).resolved() {
                            if hs[j] > best {
                                best = hs[j];
                            }
                        }
                    },
                    Factor::Bundle(_) => {},
                }
                proof {
                    let ki = k as int + 1;
                    assert(nodes[i as int].operands()[ki - 1] == o);
                    assert(0 < ki <= nodes[i as int].operands().len());
                    assert(max_operand(nodes, i as int, ki) == {
                        let rest = max_operand(nodes, i as int, ki - 1);
                        let h = match nodes[i as int].operands()[ki - 1].factor {
                            Factor::Node(j) => if 0 <= j < i && nodes[j as int].state() == State::Pending {
                                height(nodes, j as int)
                            } else {
                                0
                            },
                            Factor::Bundle(_) => 0,
                        };
                        if h > rest { h } else { rest }
                    });
                }
                k = k + 1;
            }
            proof {
                lemma_max_operand_bound(nodes, i as int, len as int);
            }
            hs.push(best + 1);
            i = i + 1;
        }
        hs
    }

    /// The depth classification of a graph over `roots`.
    fn classify(history: &History, roots: &Vec<usize>) -> (r: TreeDepth)
        requires
            history.wf(),
            forall|k: int| 0 <= k < roots@.len() ==> ((#[trigger] roots@[k]) as int) < history.nodes().len(),
        ensures
            r == depth_of(history.nodes(), roots@),
    {
        let hs = NodeTree::heights(history);
        let mut best: usize = 0;
        let mut k: usize = 0;
        while k < roots.len()
            invariant
                hs@.len() == history.nodes().len(),
                forall|m: int| 0 <= m < hs@.len() ==> hs@[m] == height(history.nodes(), m),
                forall|q: int| 0 <= q < roots@.len() ==> ((#[trigger] roots@[q]) as int) < history.nodes().len(),
                k <= roots@.len(),
                best == max_height(history.nodes(), roots@, k as int),
            decreases roots@.len() - k,
        {
            let h = hs[roots[k]];
            if h > best {
                best = h;
            }
            k = k + 1;
        }
        proof {
            lemma_max_height_bound(history.nodes(), roots@, roots@.len() as int);
        }
        if best <= 1 {
            TreeDepth::Singular
        } else {
            TreeDepth::Layered(best, TreeStatus::Pending)
        }
    }

    /// A graph with one root, not yet traversed. `Singular` when the root's operands are all
    /// resolved already.
    pub fn create(history: &History, root: usize) -> (r: Result<NodeTree, GraphError>)
        requires
            history.wf(),
        ensures
            r is Ok <==> root < history.nodes().len(),
            r is Err ==> r == Err::<NodeTree, GraphError>(GraphError::OutOfRange(root)),
            r matches Ok(t) ==> {
                &&& t.wf(history.nodes())
                &&& t.roots() == seq![root]
                &&& t.order() == Seq::<usize>::empty()
                &&& t.depth() == depth_of(history.nodes(), seq![root])
                &&& !t.running()
            },
    {
        if root >= history.fetch() {
            return Err(GraphError::OutOfRange(root));
        }
        let mut roots: Vec<usize> = Vec::new();
        roots.push(root);
        assert(roots@ == seq![root]);
        let depth = NodeTree::classify(history, &roots);
        Ok(NodeTree { roots, order: Vec::new(), depth, context: false })
    }

    /// Adds a root. Refused once execution has begun; a new root drops any registered order.
    pub fn link(&mut self, history: &History, node: usize) -> (r: Result<(), GraphError>)
        requires
            history.wf(),
            old(self).wf(history.nodes()),
        ensures
            final(self).wf(history.nodes()),
            old(self).running() ==> r == Err::<(), GraphError>(GraphError::Running),
            r is Ok <==> !old(self).running() && node < history.nodes().len(),
            r is Err ==> *final(self) == *old(self),
            r is Ok ==> {
                &&& final(self).roots() == old(self).roots().push(node)
                &&& final(self).order() == Seq::<usize>::empty()
                &&& final(self).depth() == depth_of(history.nodes(), final(self).roots())
                &&& !final(self).running()
            },
    {
        if self.context {
            return Err(GraphError::Running);
        }
        if node >= history.fetch() {
            return Err(GraphError::OutOfRange(node));
        }
        self.roots.push(node);
        assert forall|k: int| 0 <= k < self.roots@.len() implies ((#[trigger] self.roots@[k]) as int) < history.nodes().len() by {
            if k < old(self).roots@.len() {
                assert(old(self).roots()[k] == self.roots@[k]);
            }
        }
        self.order = Vec::new();
        self.depth = NodeTree::classify(history, &self.roots);
        Ok(())
    }

    /// Attaches the execution context: from here on the graph no longer changes.
    pub fn start(&mut self)
        ensures
            final(self).roots() == old(self).roots(),
            final(self).order() == old(self).order(),
            final(self).depth() == old(self).depth(),
            final(self).running(),
    {
        self.context = true;
    }

    pub fn roots_vec(&self) -> (r: &Vec<usize>)
        ensures
            r@ == self.roots(),
    {
        &self.roots
    }

    /// The registered resolution order.
    pub fn resolution(&self) -> (r: &Vec<usize>)
        ensures
            r@ == self.order(),
    {
        &self.order
    }

    pub fn depth_class(&self) -> (r: TreeDepth)
        ensures
            r == self.depth(),
    {
        self.depth
    }

    fn is_root(&self, i: usize) -> (r: bool)
        ensures
            r == self.roots().contains(i),
    {
        let mut k: usize = 0;
        while k < self.roots.len()
            invariant
                k <= self.roots@.len(),
                forall|q: int| 0 <= q < k ==> self.roots@[q] != i,
            decreases self.roots@.len() - k,
        {
            if self.roots[k] == i {
                return true;
            }
            k = k + 1;
        }
        false
    }

    /// Walks the graph from its roots and registers the resolution order: the nodes that the
    /// roots need, every operand before the node that consumes it.
    pub fn traverse(&mut self, history: &History)
        requires
            history.wf(),
            old(self).wf(history.nodes()),
        ensures
            final(self).wf(history.nodes()),
            traversed(history.nodes(), *old(self), *final(self)),
    {
        let ghost nodes = history.nodes();
        let ghost roots = self.roots@;
        let n = history.fetch();
        let mut marks: Vec<bool> = Vec::new();
        let mut i: usize = 0;
        while i < n
            invariant
                n == nodes.len(),
                roots == self.roots@,
                i <= n,
                marks@.len() == i,
                forall|m: int| 0 <= m < i ==> marks@[m] == needed_from(nodes, roots, m, n as int),
            decreases n - i,
        {
            let root = self.is_root(i);
            marks.push(root);
            i = i + 1;
        }
        let mut j: usize = n;
        while j > 0
            invariant
                n == nodes.len(),
                nodes == history.nodes(),
                history.wf(),
                j <= n,
                marks@.len() == n,
                forall|m: int| 0 <= m < n ==> marks@[m] == if m >= j {
                    needed(nodes, roots, m)
                } else {
                    needed_from(nodes, roots, m, j as int)
                },
            decreases j,
        {
            j = j - 1;
            if marks[j] {
                let node = history.index(j);
                let len = node.len();
                let mut k: usize = 0;
                while k < len
                    invariant
                        n == nodes.len(),
                        nodes == history.nodes(),
                        j < n,
                        *node == nodes[j as int],
                        len == node.operands().len(),
                        k <= len,
                        marks@.len() == n,
                        needed(nodes, roots, j as int),
                        forall|m: int| 0 <= m < n ==> marks@[m] == if m >= j {
                            needed(nodes, roots, m)
                        } else {
                            needed_from(nodes, roots, m, j as int + 1) || (nodes[m].state() == State::Pending
                                && exists|q: int| 0 <= q < k && (#[trigger] node.operands()[q]).factor == Factor::Node(m as usize))
                        },
                    decreases len - k,
                {
                    let o = node.operand(k);
                    match o.factor {
                        Factor::Node(t) => {
                            if t < j && !history.index(t).resolved() {
                                marks.set(t, true);
                            }
                        },
                        Factor::Bundle(_) => {},
                    }
                    proof {
                        assert forall|m: int| 0 <= m < n implies marks@[m] == if m >= j {
                            needed(nodes, roots, m)
                        } else {
                            needed_from(nodes, roots, m, j as int + 1) || (nodes[m].state() == State::Pending
                                && exists|q: int| 0 <= q < k + 1 && (#[trigger] node.operands()[q]).factor == Factor::Node(m as usize))
                        } by {
                            if m < j && o.factor == Factor::Node(m as usize) && nodes[m].state() == State::Pending {
                                assert(node.operands()[k as int].factor == Factor::Node(m as usize));
                            }
                        }
                    }
                    k = k + 1;
                }
                proof {
                    assert forall|m: int| 0 <= m < n implies marks@[m] == if m >= j {
                        needed(nodes, roots, m)
                    } else {
                        needed_from(nodes, roots, m, j as int)
                    } by {
                        if m < j {
                            assert(needed_from(nodes, roots, m, j as int) == (needed_from(nodes, roots, m, j as int + 1)
                                || (m < j && needed_from(nodes, roots, j as int, j as int + 1) && consumes(nodes, j as int, m))));
                        }
                    }
                }
            } else {
                proof {
                    assert forall|m: int| 0 <= m < n implies marks@[m] == if m >= j {
                        needed(nodes, roots, m)
                    } else {
                        needed_from(nodes, roots, m, j as int)
                    } by {
                        if m < j {
                            assert(needed_from(nodes, roots, m, j as int) == (needed_from(nodes, roots, m, j as int + 1)
                                || (m < j && needed_from(nodes, roots, j as int, j as int + 1) && consumes(nodes, j as int, m))));
                        }
                    }
                }
            }
        }
        let mut order: Vec<usize> = Vec::new();
        let mut i: usize = 0;
        while i < n
            invariant
                n == nodes.len(),
                i <= n,
                marks@.len() == n,
                forall|m: int| 0 <= m < n ==> marks@[m] == needed(nodes, roots, m),
                order@ == order_upto(nodes, roots, i as int),
            decreases n - i,
        {
            if marks[i] {
                order.push(i);
            }
            i = i + 1;
        }
        self.order = order;
        self.depth = self.depth.register();
        assert forall|k: int| 0 <= k < self.roots@.len() implies ((#[trigger] self.roots@[k]) as int) < history.nodes().len() by {
            assert(old(self).roots()[k] == self.roots@[k]);
        }
        proof {
            lemma_order_upto(nodes, roots, n as int);
        }
    }
}

/// Traversing a graph a second time, with the arena unchanged, registers the same resolution
/// order and leaves the graph as the first traversal left it.
pub proof fn lemma_traverse_idempotent(nodes: Seq<Node>, t0: NodeTree, t1: NodeTree, t2: NodeTree)
    requires
        traversed(nodes, t0, t1),
        traversed(nodes, t1, t2),
    ensures
        t2.order() == t1.order(),
        t2.roots() == t1.roots(),
        t2.depth() == t1.depth(),
        t2.running() == t1.running(),
{
}

pub(crate) proof fn lemma_needed_monotone(nodes: Seq<Node>, roots: Seq<usize>, i: int, a: int, b: int)
    requires
        0 <= a <= b <= nodes.len(),
        needed_from(nodes, roots, i, b),
    ensures
        needed_from(nodes, roots, i, a),
    decreases b - a,
{
    if a < b {
        lemma_needed_monotone(nodes, roots, i, a + 1, b);
    }
}

/// A pending node that a needed node takes as an operand is needed too.
proof fn lemma_consumed_needed(nodes: Seq<Node>, roots: Seq<usize>, j: int, m: int)
    requires
        needed(nodes, roots, j),
        consumes(nodes, j, m),
    ensures
        needed(nodes, roots, m),
{
    assert(needed_from(nodes, roots, m, j));
    lemma_needed_monotone(nodes, roots, m, m + 1, j);
}

proof fn lemma_order_upto(nodes: Seq<Node>, roots: Seq<usize>, k: int)
    requires
        0 <= k <= nodes.len(),
        nodes.len() <= usize::MAX,
    ensures
        forall|a: int, b: int| 0 <= a < b < order_upto(nodes, roots, k).len() ==> order_upto(nodes, roots, k)[a] < order_upto(nodes, roots, k)[b],
        forall|a: int| 0 <= a < order_upto(nodes, roots, k).len() ==> (#[trigger] order_upto(nodes, roots, k)[a]) < k
            && needed(nodes, roots, order_upto(nodes, roots, k)[a] as int),
        forall|i: int| 0 <= i < k && needed(nodes, roots, i) ==> order_upto(nodes, roots, k).contains(i as usize),
    decreases k,
{
    if k > 0 {
        lemma_order_upto(nodes, roots, k - 1);
        let prev = order_upto(nodes, roots, k - 1);
        if needed(nodes, roots, k - 1) {
            let cur = prev.push((k - 1) as usize);
            assert(cur[cur.len() - 1] == (k - 1) as usize);
            assert forall|a: int| 0 <= a < cur.len() implies (#[trigger] cur[a]) < k && needed(nodes, roots, cur[a] as int) by {
                if a < prev.len() {
                    assert(cur[a] == prev[a]);
                }
            }
            assert forall|a: int, b: int| 0 <= a < b < cur.len() implies cur[a] < cur[b] by {
                assert(cur[a] == prev[a]);
                if b < prev.len() {
                    assert(cur[b] == prev[b]);
                }
            }
            assert forall|i: int| 0 <= i < k && needed(nodes, roots, i) implies cur.contains(i as usize) by {
                if i < k - 1 {
                    let w = choose|w: int| 0 <= w < prev.len() && prev[w] == i as usize;
                    assert(cur[w] == i as usize);
                } else {
                    assert(cur[cur.len() - 1] == i as usize);
                }
            }
        }
    }
}

/// In the resolution order every node appears once and the order ascends; a pending node that
/// a listed node takes as an operand is listed, and before it.
pub proof fn lemma_operands_first(nodes: Seq<Node>, roots: Seq<usize>, p: int, m: int)
    requires
        nodes.len() <= usize::MAX,
        0 <= p < resolution_order(nodes, roots).len(),
        consumes(nodes, resolution_order(nodes, roots)[p] as int, m),
    ensures
        forall|a: int, b: int| 0 <= a < b < resolution_order(nodes, roots).len() ==> resolution_order(nodes, roots)[a] < resolution_order(nodes, roots)[b],
        exists|q: int| 0 <= q < p && resolution_order(nodes, roots)[q] == m as usize,
{
    let order = resolution_order(nodes, roots);
    lemma_order_upto(nodes, roots, nodes.len() as int);
    let j = order[p] as int;
    assert(needed(nodes, roots, j));
    lemma_consumed_needed(nodes, roots, j, m);
    assert(order.contains(m as usize));
    let q = choose|q: int| 0 <= q < order.len() && order[q] == m as usize;
    if q >= p {
        assert(order[p] <= order[q]);
    }
}

proof fn lemma_max_operand_zero(nodes: Seq<Node>, i: int, k: int)
    requires
        0 <= i < nodes.len(),
        0 <= k <= nodes[i].operands().len(),
        max_operand(nodes, i, k) == 0,
    ensures
        forall|q: int| 0 <= q < k ==> !pending_operand(nodes, #[trigger] nodes[i].operands()[q].factor, i),
    decreases k,
{
    if k > 0 {
        let f = nodes[i].operands()[k - 1].factor;
        match f {
            Factor::Node(j) => if 0 <= j < i && nodes[j as int].state() == State::Pending {
                assert(height(nodes, j as int) >= 1);
            },
            Factor::Bundle(_) => {},
        }
        lemma_max_operand_zero(nodes, i, k - 1);
    }
}

/// A root whose operands are all resolved (`Singular` depth) reads no pending node.
pub(crate) proof fn lemma_singular_operands(nodes: Seq<Node>, r: usize)
    requires
        (r as int) < nodes.len(),
        depth_of(nodes, seq![r]) == TreeDepth::Singular,
    ensures
        forall|q: int| 0 <= q < nodes[r as int].operands().len() ==> !pending_operand(nodes, #[trigger] nodes[r as int].operands()[q].factor, r as int),
{
    let roots = seq![r];
    assert(max_height(nodes, roots, 0) == 0);
    assert(max_height(nodes, roots, 1) == height(nodes, r as int));
    lemma_max_operand_zero(nodes, r as int, nodes[r as int].operands().len() as int);
}

proof fn lemma_not_needed_from(nodes: Seq<Node>, r: usize, x: int, j: int)
    requires
        nodes.len() <= usize::MAX,
        (r as int) < nodes.len(),
        0 <= x < nodes.len(),
        x != r,
        x < j <= nodes.len(),
        forall|y: int| x < y < nodes.len() && y != r ==> !needed(nodes, seq![r], y),
        forall|m: int| !consumes(nodes, r as int, m),
    ensures
        !needed_from(nodes, seq![r], x, j),
    decreases nodes.len() - j,
{
    if j < nodes.len() {
        lemma_not_needed_from(nodes, r, x, j + 1);
        if j != r {
            assert(!needed(nodes, seq![r], j));
        } else {
            assert(!consumes(nodes, r as int, x));
        }
    } else {
        assert(!seq![r].contains(x as usize)) by {
            if seq![r].contains(x as usize) {
                assert(seq![r][0] == x as usize);
            }
        }
    }
}

proof fn lemma_only_root(nodes: Seq<Node>, r: usize, x: int)
    requires
        nodes.len() <= usize::MAX,
        (r as int) < nodes.len(),
        0 <= x < nodes.len(),
        x != r,
        forall|m: int| !consumes(nodes, r as int, m),
    ensures
        !needed(nodes, seq![r], x),
    decreases nodes.len() - x,
{
    assert forall|y: int| x < y < nodes.len() && y != r implies !needed(nodes, seq![r], y) by {
        lemma_only_root(nodes, r, y);
    }
    lemma_not_needed_from(nodes, r, x, x + 1);
}

/// The resolution order of a `Singular` graph over an acyclic arena is its root alone.
pub(crate) proof fn lemma_singular_order(h: History, r: usize)
    requires
        h.nodes().len() <= usize::MAX,
        h.wf(),
        (r as int) < h.nodes().len(),
        depth_of(h.nodes(), seq![r]) == TreeDepth::Singular,
    ensures
        resolution_order(h.nodes(), seq![r]) == seq![r],
{
    let nodes = h.nodes();
    let roots = seq![r];
    lemma_singular_operands(nodes, r);
    assert forall|m: int| !consumes(nodes, r as int, m) by {
        if consumes(nodes, r as int, m) {
            let q = choose|q: int| 0 <= q < nodes[r as int].operands().len() && (#[trigger] nodes[r as int].operands()[q]).factor == Factor::Node(m as usize);
            assert(!pending_operand(nodes, nodes[r as int].operands()[q].factor, r as int));
        }
    }
    assert(roots[0] == r);
    assert(needed_from(nodes, roots, r as int, nodes.len() as int));
    lemma_needed_monotone(nodes, roots, r as int, r as int + 1, nodes.len() as int);
    lemma_order_singular(nodes, r, nodes.len() as int);
}

proof fn lemma_order_singular(nodes: Seq<Node>, r: usize, k: int)
    requires
        nodes.len() <= usize::MAX,
        (r as int) < nodes.len(),
        0 <= k <= nodes.len(),
        needed(nodes, seq![r], r as int),
        forall|m: int| !consumes(nodes, r as int, m),
    ensures
        order_upto(nodes, seq![r], k) == if k > r {
            seq![r]
        } else {
            Seq::<usize>::empty()
        },
    decreases k,
{
    if k > 0 {
        lemma_order_singular(nodes, r, k - 1);
        if k - 1 != r {
            lemma_only_root(nodes, r, k - 1);
        } else {
            assert(Seq::<usize>::empty().push(r) == seq![r]);
        }
    }
}

} // verus!
