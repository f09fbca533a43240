//! A session: the binding table, the node arena and the lazy tensor operations over them,
//! up to the program that resolves a tensor.
use vstd::prelude::*;

use crate::builder::{
    all_refs, compile, header_slots, lemma_dedup, node_refs, operand_slot, order_refs, output_from, program_text, supported,
    EmitError, Program,
};
use crate::bundle::{Bundle, Memory, Scalar};
use crate::history::{operand_ok, GraphError, History};
use crate::layout::{Layout, LayoutError};
use crate::node::{ElementType, Factor, Node, NodeError, Operand, Shader, State};
use crate::tensor::{dims_product, workgroups, TensorOrder};
use crate::tree::{resolution_order, NodeTree};

verus! {

/// Options of a session.
#[derive(Clone, Copy, Debug, PartialEq, Eq, Structural)]
pub struct InstanceOpts {
    /// Invocations per workgroup of the generated entry point.
    pub workgroup: u32,
}

impl Default for InstanceOpts {
    fn default() -> (r: Self)
        ensures
            r.workgroup == 64,
    {
        InstanceOpts { workgroup: 64 }
    }
}

/// Why a session refused a request.
#[derive(Clone, Copy, Debug, PartialEq, Eq, Structural)]
pub enum SessionError {
    Layout(LayoutError),
    Node(NodeError),
    Graph(GraphError),
    Emit(EmitError),
    /// Operands of different shapes or element types.
    Shape,
    /// A shape with more elements than a buffer can hold.
    Size,
    /// Workgroups must have at least one invocation.
    Workgroup,
    /// The tensor is bound data, not a pending operation.
    Leaf,
}

/// A tensor of a session: its shape, element type, and the handle or node behind it.
#[derive(Debug)]
pub struct Tensor {
    pub order: TensorOrder,
    pub alias: Scalar,
    pub operand: Operand,
}

/// What resolving a tensor takes: the traversed graph, the program, where the result goes
/// and how many workgroups to dispatch.
pub struct Plan {
    pub tree: NodeTree,
    pub program: Program,
    pub root: usize,
    pub output: u32,
    pub workgroups: u64,
}

/// The session's state.
pub struct Instance {
    layout: Layout,
    history: History,
    opts: InstanceOpts,
}

/// Whether the two tensors may be combined element by element under the session's state.
pub open spec fn combinable(nodes: Seq<Node>, table: Map<u32, crate::bundle::Bundle>, a: Tensor, b: Tensor) -> bool {
    &&& a.order.dims() == b.order.dims()
    &&& a.alias == b.alias
    &&& a.operand.count == b.operand.count
    &&& operand_ok(nodes, table, a.operand, nodes.len() as int)
    &&& operand_ok(nodes, table, b.operand, nodes.len() as int)
}

/// Every slot the arena refers to is bound: the handles its nodes read and the results of its
/// resolved nodes.
pub open spec fn consistent(nodes: Seq<Node>, table: Map<u32, Bundle>) -> bool {
    &&& forall|i: int, k: int| 0 <= i < nodes.len() && 0 <= k < nodes[i].operands().len() ==> match (#[trigger] nodes[i].operands()[k]).factor {
        Factor::Bundle(s) => table.contains_key(s),
        Factor::Node(_) => true,
    }
    &&& forall|i: int| 0 <= i < nodes.len() ==> match (#[trigger] nodes[i]).state() {
        State::Done(s) => table.contains_key(s),
        State::Pending => true,
    }
}

proof fn lemma_consistent_grow(nodes: Seq<Node>, t1: Map<u32, Bundle>, t2: Map<u32, Bundle>)
    requires
        consistent(nodes, t1),
        forall|s: u32| t1.contains_key(s) ==> #[trigger] t2.contains_key(s),
    ensures
        consistent(nodes, t2),
{
    assert forall|i: int, k: int| 0 <= i < nodes.len() && 0 <= k < nodes[i].operands().len() implies match (#[trigger] nodes[i].operands()[k]).factor {
        Factor::Bundle(s) => t2.contains_key(s),
        Factor::Node(_) => true,
    } by {
        match nodes[i].operands()[k].factor {
            Factor::Bundle(s) => assert(t1.contains_key(s)),
            Factor::Node(_) => {},
        }
    }
    assert forall|i: int| 0 <= i < nodes.len() implies match (#[trigger] nodes[i]).state() {
        State::Done(s) => t2.contains_key(s),
        State::Pending => true,
    } by {
        match nodes[i].state() {
            State::Done(s) => assert(t1.contains_key(s)),
            State::Pending => {},
        }
    }
}

proof fn lemma_output_from(roots: Seq<usize>, outputs: Seq<u32>, j: usize, k: int)
    ensures
        output_from(roots, outputs, j, k) matches Some(s) ==> outputs.contains(s),
    decreases roots.len() - k,
{
    if !(k < 0 || k >= roots.len() || k >= outputs.len()) {
        if roots[k] != j {
            lemma_output_from(roots, outputs, j, k + 1);
        }
    }
}

proof fn lemma_node_refs_bound(nodes: Seq<Node>, table: Map<u32, Bundle>, roots: Seq<usize>, outputs: Seq<u32>, i: int, k: int)
    requires
        consistent(nodes, table),
        0 <= i < nodes.len(),
        0 <= k <= nodes[i].operands().len(),
        forall|q: int| 0 <= q < outputs.len() ==> table.contains_key(#[trigger] outputs[q]),
    ensures
        forall|x: u32| node_refs(nodes, roots, outputs, nodes[i].operands(), k).contains(x) ==> table.contains_key(x),
    decreases k,
{
    if k > 0 {
        lemma_node_refs_bound(nodes, table, roots, outputs, i, k - 1);
        let ops = nodes[i].operands();
        let prev = node_refs(nodes, roots, outputs, ops, k - 1);
        let f = ops[k - 1].factor;
        match operand_slot(nodes, roots, outputs, f) {
            Some(s) => {
                match f {
                    Factor::Bundle(b) => {
                        assert(match (nodes[i].operands()[k - 1]).factor {
                            Factor::Bundle(s) => table.contains_key(s),
                            Factor::Node(_) => true,
                        });
                    },
                    Factor::Node(j) => {
                        assert((j as int) < nodes.len());
                        match nodes[j as int].state() {
                            State::Done(d) => {
                                assert(match (nodes[j as int]).state() {
                                    State::Done(s) => table.contains_key(s),
                                    State::Pending => true,
                                });
                            },
                            State::Pending => {
                                lemma_output_from(roots, outputs, j, 0);
                            },
                        }
                    },
                }
                assert(table.contains_key(s));
                assert forall|x: u32| prev.push(s).contains(x) implies table.contains_key(x) by {
                    let w = choose|w: int| 0 <= w < prev.push(s).len() && prev.push(s)[w] == x;
                    if w < prev.len() {
                        assert(prev[w] == x);
                        assert(prev.contains(x));
                    }
                }
            },
            None => {},
        }
    }
}

proof fn lemma_order_refs_bound(nodes: Seq<Node>, table: Map<u32, Bundle>, roots: Seq<usize>, outputs: Seq<u32>, order: Seq<usize>, p: int)
    requires
        consistent(nodes, table),
        0 <= p <= order.len(),
        forall|q: int| 0 <= q < order.len() ==> ((#[trigger] order[q]) as int) < nodes.len(),
        forall|q: int| 0 <= q < outputs.len() ==> table.contains_key(#[trigger] outputs[q]),
    ensures
        forall|x: u32| order_refs(nodes, roots, outputs, order, p).contains(x) ==> table.contains_key(x),
    decreases p,
{
    if p > 0 {
        lemma_order_refs_bound(nodes, table, roots, outputs, order, p - 1);
        let i = order[p - 1] as int;
        let ops = nodes[i].operands();
        lemma_node_refs_bound(nodes, table, roots, outputs, i, ops.len() as int);
        let a = order_refs(nodes, roots, outputs, order, p - 1);
        let b = node_refs(nodes, roots, outputs, ops, ops.len() as int);
        assert forall|x: u32| (a + b).contains(x) implies table.contains_key(x) by {
            let w = choose|w: int| 0 <= w < (a + b).len() && (a + b)[w] == x;
            if w < a.len() {
                assert(a[w] == x);
                assert(a.contains(x));
            } else {
                assert(b[w - a.len()] == x);
                assert(b.contains(x));
            }
        }
    }
}

/// In a consistent session every slot that a program declares is bound.
proof fn lemma_headers_bound(nodes: Seq<Node>, table: Map<u32, Bundle>, roots: Seq<usize>, outputs: Seq<u32>, order: Seq<usize>)
    requires
        consistent(nodes, table),
        forall|q: int| 0 <= q < order.len() ==> ((#[trigger] order[q]) as int) < nodes.len(),
        forall|q: int| 0 <= q < outputs.len() ==> table.contains_key(#[trigger] outputs[q]),
    ensures
        forall|k: int| 0 <= k < header_slots(nodes, roots, outputs, order).len() ==> table.contains_key(
            #[trigger] header_slots(nodes, roots, outputs, order)[k],
        ),
{
    lemma_order_refs_bound(nodes, table, roots, outputs, order, order.len() as int);
    let a = order_refs(nodes, roots, outputs, order, order.len() as int);
    let refs = all_refs(nodes, roots, outputs, order);
    lemma_dedup(refs, refs.len() as int);
    let hs = header_slots(nodes, roots, outputs, order);
    assert forall|k: int| 0 <= k < hs.len() implies table.contains_key(#[trigger] hs[k]) by {
        assert(hs.contains(hs[k]));
        let i = choose|i: int| 0 <= i < refs.len() && refs[i] == hs[k];
        if i < a.len() {
            assert(a[i] == hs[k]);
            assert(a.contains(hs[k]));
        } else {
            assert(outputs[i - a.len()] == hs[k]);
        }
    }
}

/// What combining `a` and `b` by `ty` does to session `x`, leaving `y` and answering `r`:
/// exactly when the tensors may be combined, one pending node over their two operands is
/// appended, and the result is the tensor that the node stands for.
pub open spec fn applied(x: Instance, y: Instance, ty: ElementType, a: Tensor, b: Tensor, r: Result<Tensor, SessionError>) -> bool {
    &&& y.table() == x.table()
    &&& y.options() == x.options()
    &&& (r is Ok <==> combinable(x.arena().nodes(), x.table().mapping(), a, b))
    &&& (r is Err ==> y.arena().nodes() == x.arena().nodes())
    &&& (r matches Ok(t) ==> {
        let i = x.arena().nodes().len();
        let n = y.arena().nodes()[i as int];
        &&& y.arena().nodes() == x.arena().nodes().push(n)
        &&& n.kind() == Shader::Element(ty)
        &&& n.operands() == seq![a.operand, b.operand]
        &&& n.state() == State::Pending
        &&& t.operand == (Operand { factor: Factor::Node(i as usize), count: a.operand.count })
        &&& t.alias == a.alias
        &&& t.order.dims() == a.order.dims()
    })
}

impl Instance {
    pub closed spec fn table(&self) -> Layout {
        self.layout
    }

    pub closed spec fn arena(&self) -> History {
        self.history
    }

    pub closed spec fn options(&self) -> InstanceOpts {
        self.opts
    }

    pub open spec fn wf(&self) -> bool {
        &&& self.table().wf()
        &&& self.arena().wf()
        &&& self.options().workgroup > 0
        &&& consistent(self.arena().nodes(), self.table().mapping())
    }

    /// A session with the default options.
    pub fn init() -> (r: Instance)
        ensures
            r.wf(),
            r.table().mapping() == Map::<u32, crate::bundle::Bundle>::empty(),
            r.table().next() == 0,
            r.arena().nodes() == Seq::<Node>::empty(),
            r.options() == (InstanceOpts { workgroup: 64 }),
    {
        Instance { layout: Layout::arrange(), history: History::new(), opts: InstanceOpts::default() }
    }

    /// A session with the given options; a workgroup must have at least one invocation.
    pub fn with_opts(opts: InstanceOpts) -> (r: Result<Instance, SessionError>)
        ensures
            r is Ok <==> opts.workgroup > 0,
            r is Err ==> r == Err::<Instance, SessionError>(SessionError::Workgroup),
            r matches Ok(i) ==> {
                &&& i.wf()
                &&& i.table().mapping() == Map::<u32, crate::bundle::Bundle>::empty()
                &&& i.table().next() == 0
                &&& i.arena().nodes() == Seq::<Node>::empty()
                &&& i.options() == opts
            },
    {
        if opts.workgroup == 0 {
            return Err(SessionError::Workgroup);
        }
        Ok(Instance { layout: Layout::arrange(), history: History::new(), opts })
    }

    pub fn layout(&self) -> (r: &Layout)
        ensures
            *r == self.table(),
    {
        &self.layout
    }

    pub fn history(&self) -> (r: &History)
        ensures
            *r == self.arena(),
    {
        &self.history
    }

    /// Binds a tensor of fixed size and shape `order`: a new handle at the next slot, not yet
    /// materialised.
    pub fn bind(&mut self, alias: Scalar, order: TensorOrder) -> (r: Result<Tensor, SessionError>)
        requires
            old(self).wf(),
        ensures
            final(self).wf(),
            final(self).arena() == old(self).arena(),
            final(self).options() == old(self).options(),
            dims_product(order.dims()) > u32::MAX ==> r == Err::<Tensor, SessionError>(SessionError::Size),
            r is Ok <==> dims_product(order.dims()) <= u32::MAX && old(self).table().next() < crate::layout::slot_limit(),
            r is Err ==> final(self).table() == old(self).table(),
            r matches Ok(t) ==> {
                let slot = old(self).table().next() as u32;
                &&& crate::layout::bind_step(old(self).table(), final(self).table(), slot)
                &&& final(self).table().mapping()[slot].props.count == dims_product(order.dims())
                &&& final(self).table().mapping()[slot].props.memory == Memory::Static
                &&& final(self).table().mapping()[slot].props.alias == alias
                &&& !final(self).table().mapping()[slot].ready
                &&& t.operand == (Operand { factor: Factor::Bundle(slot), count: dims_product(order.dims()) as usize })
                &&& t.alias == alias
                &&& t.order.dims() == order.dims()
            },
    {
        let count = match order.checked_size() {
            Some(c) => c as usize,
            None => {
                return Err(SessionError::Size);
            },
        };
        assert(count as int == dims_product(order.dims()));
        match self.layout.bind(alias, count, Memory::Static) {
            Ok(slot) => {
                assert(slot == old(self).table().next() as u32);
                assert(self.layout.mapping()[slot].props.count == count);
                Ok(Tensor { order, alias, operand: Operand { factor: Factor::Bundle(slot), count } })
            },
            Err(e) => Err(SessionError::Layout(e)),
        }
    }

    /// Records that the driver attached the physical buffer of the handle at `slot`.
    pub fn attach(&mut self, slot: u32) -> (r: Result<(), SessionError>)
        requires
            old(self).wf(),
        ensures
            final(self).wf(),
            final(self).arena() == old(self).arena(),
            final(self).options() == old(self).options(),
            r is Ok <==> old(self).table().mapping().contains_key(slot),
            r is Err ==> r == Err::<(), SessionError>(SessionError::Layout(LayoutError::Unbound(slot))),
            r is Ok ==> final(self).table().mapping() == old(self).table().mapping().insert(
                slot,
                crate::bundle::Bundle { ready: true, ..old(self).table().mapping()[slot] },
            ),
    {
        match self.layout.attach(slot) {
            Ok(()) => Ok(()),
            Err(e) => Err(SessionError::Layout(e)),
        }
    }

    /// Records `a` and `b` combined element by element by `ty`, and returns the pending
    /// tensor backed by the new node. Nothing is computed.
    pub fn apply(&mut self, ty: ElementType, a: &Tensor, b: &Tensor) -> (r: Result<Tensor, SessionError>)
        requires
            old(self).wf(),
        ensures
            final(self).wf(),
            applied(*old(self), *final(self), ty, *a, *b, r),
    {
        if !a.order.matches(&b.order) || a.alias != b.alias {
            return Err(SessionError::Shape);
        }
        let node = Node::create(Shader::Element(ty));
        let node = match node.append(a.operand) {
            Ok(n) => n,
            Err(e) => {
                return Err(SessionError::Node(e));
            },
        };
        let node = match node.append(b.operand) {
            Ok(n) => n,
            Err(e) => {
                return Err(SessionError::Node(e));
            },
        };
        assert(node.operands() =~= seq![a.operand, b.operand]);
        let ghost n = node;
        match self.history.record(&self.layout, node) {
            Ok(i) => {
                assert(self.history.nodes()[i as int] == n);
                Ok(Tensor { order: TensorOrder::new(a.order.pull()), alias: a.alias, operand: Operand { factor: Factor::Node(i), count: a.operand.count } })
            },
            Err(e) => {
                proof {
                    if combinable(old(self).arena().nodes(), old(self).table().mapping(), *a, *b) {
                        assert forall|k: int| 0 <= k < n.operands().len() implies operand_ok(old(self).arena().nodes(), self.layout.mapping(), #[trigger] n.operands()[k], old(self).arena().nodes().len() as int) by {
                            if k == 0 {
                                assert(n.operands()[k] == a.operand);
                            } else {
                                assert(n.operands()[k] == b.operand);
                            }
                        }
                    }
                }
                Err(SessionError::Graph(e))
            },
        }
    }

    pub fn add(&mut self, a: &Tensor, b: &Tensor) -> (r: Result<Tensor, SessionError>)
        requires
            old(self).wf(),
        ensures
            final(self).wf(),
            applied(*old(self), *final(self), ElementType::Add, *a, *b, r),
    {
        self.apply(ElementType::Add, a, b)
    }

    pub fn sub(&mut self, a: &Tensor, b: &Tensor) -> (r: Result<Tensor, SessionError>)
        requires
            old(self).wf(),
        ensures
            final(self).wf(),
            applied(*old(self), *final(self), ElementType::Sub, *a, *b, r),
    {
        self.apply(ElementType::Sub, a, b)
    }

    pub fn mul(&mut self, a: &Tensor, b: &Tensor) -> (r: Result<Tensor, SessionError>)
        requires
            old(self).wf(),
        ensures
            final(self).wf(),
            applied(*old(self), *final(self), ElementType::Mul, *a, *b, r),
    {
        self.apply(ElementType::Mul, a, b)
    }

    pub fn div(&mut self, a: &Tensor, b: &Tensor) -> (r: Result<Tensor, SessionError>)
        requires
            old(self).wf(),
        ensures
            final(self).wf(),
            applied(*old(self), *final(self), ElementType::Div, *a, *b, r),
    {
        self.apply(ElementType::Div, a, b)
    }

    /// Prepares the resolution of tensor `t`: a graph rooted at its node, traversed; a
    /// runtime-sized handle bound for the result; the program that computes it, with
    /// execution begun so that the graph no longer changes.
    pub fn prepare(&mut self, t: &Tensor) -> (r: Result<Plan, SessionError>)
        requires
            old(self).wf(),
        ensures
            final(self).wf(),
            final(self).arena() == old(self).arena(),
            final(self).options() == old(self).options(),
            t.operand.factor is Bundle ==> r == Err::<Plan, SessionError>(SessionError::Leaf),
            r is Ok <==> match t.operand.factor {
                Factor::Node(i) => {
                    &&& (i as int) < old(self).arena().nodes().len()
                    &&& old(self).table().next() < crate::layout::slot_limit()
                    &&& forall|p: int| 0 <= p < resolution_order(old(self).arena().nodes(), seq![i]).len()
                        ==> supported(old(self).arena().nodes()[#[trigger] resolution_order(old(self).arena().nodes(), seq![i])[p] as int])
                },
                Factor::Bundle(_) => false,
            },
            r is Err ==> final(self).table().next() >= old(self).table().next(),
            r matches Ok(p) ==> {
                let nodes = old(self).arena().nodes();
                let out = old(self).table().next() as u32;
                &&& t.operand.factor == Factor::Node(p.root)
                &&& (p.root as int) < nodes.len()
                &&& p.output == out
                &&& crate::layout::bind_step(old(self).table(), final(self).table(), out)
                &&& final(self).table().mapping()[out].props.memory == Memory::Dynamic
                &&& final(self).table().mapping()[out].props.alias == t.alias
                &&& !final(self).table().mapping()[out].ready
                &&& final(self).table().mapping()[out].props.count == nodes[p.root as int].count()
                &&& p.tree.roots() == seq![p.root]
                &&& p.tree.order() == resolution_order(nodes, seq![p.root])
                &&& p.tree.running()
                &&& p.program.source@ == program_text(
                    final(self).table().mapping(),
                    nodes,
                    seq![p.root],
                    seq![out],
                    resolution_order(nodes, seq![p.root]),
                    old(self).options().workgroup,
                )
                &&& p.workgroups as int == (nodes[p.root as int].count() as int + old(self).options().workgroup as int - 1)
                    / (old(self).options().workgroup as int)
            },
    {
        let root = match t.operand.factor {
            Factor::Bundle(_) => {
                return Err(SessionError::Leaf);
            },
            Factor::Node(i) => i,
        };
        let mut tree = match NodeTree::create(&self.history, root) {
            Ok(tree) => tree,
            Err(e) => {
                return Err(SessionError::Graph(e));
            },
        };
        tree.traverse(&self.history);
        let node = self.history.index(root);
        let count = node.operand(0).count;
        let output = match self.layout.bind(t.alias, count, Memory::Dynamic) {
            Ok(slot) => slot,
            Err(e) => {
                return Err(SessionError::Layout(e));
            },
        };
        let mut outputs: Vec<u32> = Vec::new();
        outputs.push(output);
        assert(outputs@ == seq![output]);
        proof {
            lemma_headers_bound(self.history.nodes(), self.layout.mapping(), tree.roots(), outputs@, tree.order());
        }
        let program = match compile(&self.layout, &self.history, &tree, &outputs, self.opts.workgroup) {
            Ok(p) => p,
            Err(e) => {
                return Err(SessionError::Emit(e));
            },
        };
        tree.start();
        let groups = workgroups(count as u64, self.opts.workgroup);
        Ok(Plan { tree, program, root, output, workgroups: groups })
    }

    /// Records that the driver ran `plan` and copied its result back: the result handle is
    /// materialised and the root node is resolved at it.
    pub fn complete(&mut self, plan: &Plan) -> (r: Result<(), SessionError>)
        requires
            old(self).wf(),
        ensures
            final(self).wf(),
            final(self).options() == old(self).options(),
            r is Ok <==> old(self).table().mapping().contains_key(plan.output) && plan.root < old(self).arena().nodes().len(),
            r is Err ==> final(self).arena().nodes() == old(self).arena().nodes(),
            r is Ok ==> {
                &&& final(self).table().mapping() == old(self).table().mapping().insert(
                    plan.output,
                    crate::bundle::Bundle { ready: true, ..old(self).table().mapping()[plan.output] },
                )
                &&& final(self).arena().nodes()[plan.root as int].state() == State::Done(plan.output)
                &&& final(self).arena().nodes()[plan.root as int].operands() == old(self).arena().nodes()[plan.root as int].operands()
            },
    {
        if plan.root >= self.history.fetch() {
            return Err(SessionError::Graph(GraphError::OutOfRange(plan.root)));
        }
        match self.layout.attach(plan.output) {
            Ok(()) => {},
            Err(e) => {
                return Err(SessionError::Layout(e));
            },
        }
        match self.history.resolve(plan.root, plan.output) {
            Ok(()) => Ok(()),
            Err(e) => Err(SessionError::Graph(e)),
        }
    }
}

} // verus!
