//! The node arena: every node of a session, appended once and referenced by index.
use vstd::prelude::*;

use crate::layout::Layout;
use crate::node::{Factor, Node, Operand, State};

verus! {

/// Why the arena or a graph refused a request.
#[derive(Clone, Copy, Debug, PartialEq, Eq, Structural)]
pub enum GraphError {
    /// A node without operands.
    Empty,
    /// A node that is already resolved cannot be recorded again.
    Settled,
    /// An operand refers to no handle of the table or to no earlier node.
    Dangling(Factor),
    /// An operand's element count differs from that of what it refers to.
    ShapeMismatch { expected: usize, found: usize },
    /// No node stands at the index.
    OutOfRange(usize),
    /// Execution has begun: the graph no longer changes.
    Running,
}

/// Whether operand `o` of a node recorded at index `i` refers to a handle of `table` or to an
/// earlier node, with the element count that it states.
pub open spec fn operand_ok(nodes: Seq<Node>, table: Map<u32, crate::bundle::Bundle>, o: Operand, i: int) -> bool {
    match o.factor {
        Factor::Bundle(s) => table.contains_key(s) && table[s].props.count == o.count,
        Factor::Node(j) => j < i && nodes[j as int].count() == o.count,
    }
}

/// Whether `node` may be appended to `nodes` under `table`.
pub open spec fn recordable(nodes: Seq<Node>, table: Map<u32, crate::bundle::Bundle>, node: Node) -> bool {
    &&& node.operands().len() > 0
    &&& node.state() == State::Pending
    &&& forall|k: int| 0 <= k < node.operands().len() ==> operand_ok(nodes, table, #[trigger] node.operands()[k], nodes.len() as int)
}

/// Whether node `n` at index `i` refers only to earlier nodes, with their element counts.
pub open spec fn acyclic_at(nodes: Seq<Node>, n: Node, i: int) -> bool {
    forall|k: int| 0 <= k < n.operands().len() ==> match (#[trigger] n.operands()[k]).factor {
        Factor::Node(j) => j < i && nodes[j as int].count() == n.operands()[k].count,
        Factor::Bundle(_) => true,
    }
}

/// Append-only arena of nodes.
pub struct History {
    history: Vec<Node>,
}

impl History {
    pub closed spec fn nodes(&self) -> Seq<Node> {
        self.history@
    }

    /// Every node has operands of one element count, refers only to earlier nodes, and the
    /// counts it states for them are theirs.
    pub open spec fn wf(&self) -> bool {
        forall|i: int| 0 <= i < self.nodes().len() ==> {
            &&& (#[trigger] self.nodes()[i]).wf()
            &&& self.nodes()[i].operands().len() > 0
            &&& acyclic_at(self.nodes(), self.nodes()[i], i)
        }
    }

    pub fn new() -> (r: History)
        ensures
            r.wf(),
            r.nodes() == Seq::<Node>::empty(),
    {
        History { history: Vec::new() }
    }

    /// The index that the next recorded node receives.
    pub fn fetch(&self) -> (r: usize)
        ensures
            r == self.nodes().len(),
    {
        self.history.len()
    }

    /// The node at `offset`.
    pub fn index(&self, offset: usize) -> (r: &Node)
        requires
            offset < self.nodes().len(),
        ensures
            *r == self.nodes()[offset as int],
    {
        &self.history[offset]
    }

    /// Checks one operand of a node about to be recorded.
    fn check(&self, table: &Layout, o: Operand) -> (r: Result<(), GraphError>)
        requires
            self.wf(),
        ensures
            r is Ok <==> operand_ok(self.nodes(), table.mapping(), o, self.nodes().len() as int),
    {
        match o.factor {
            Factor::Bundle(s) => match table.get(s) {
                Some(b) => if b.props.count == o.count {
                    Ok(())
                } else {
                    Err(GraphError::ShapeMismatch { expected: b.props.count, found: o.count })
                },
                None => Err(GraphError::Dangling(o.factor)),
            },
            Factor::Node(j) => {
                if j >= self.history.len() {
                    return Err(GraphError::Dangling(o.factor));
                }
                let target = &self.history[j];
                assert(self.nodes()[j as int].operands().len() > 0);
                let expected = target.operand(0).count;
                if expected == o.count {
                    Ok(())
                } else {
                    Err(GraphError::ShapeMismatch { expected, found: o.count })
                }
            },
        }
    }

    /// Appends `node` and returns its index. The node must have operands, be pending, and
    /// every operand must refer to a handle of `table` or to a node already recorded, with
    /// its element count; otherwise nothing changes.
    pub fn record(&mut self, table: &Layout, node: Node) -> (r: Result<usize, GraphError>)
        requires
            old(self).wf(),
            node.wf(),
        ensures
            final(self).wf(),
            r is Ok <==> recordable(old(self).nodes(), table.mapping(), node),
            node.operands().len() == 0 ==> r == Err::<usize, GraphError>(GraphError::Empty),
            r matches Ok(i) ==> i == old(self).nodes().len() && final(self).nodes() == old(self).nodes().push(node),
            r is Err ==> final(self).nodes() == old(self).nodes(),
    {
        let n = node.len();
        if n == 0 {
            return Err(GraphError::Empty);
        }
        if node.resolved() {
            return Err(GraphError::Settled);
        }
        let mut k: usize = 0;
        while k < n
            invariant
                self.wf(),
                n == node.operands().len(),
                k <= n,
                forall|m: int| 0 <= m < k ==> operand_ok(self.nodes(), table.mapping(), #[trigger] node.operands()[m], self.nodes().len() as int),
            decreases n - k,
        {
            let o = node.operand(k);
            match self.check(table, o) {
                Ok(()) => {},
                Err(e) => {
                    return Err(e);
                },
            }
            k = k + 1;
        }
        let i = self.history.len();
        proof {
            let nodes = self.nodes();
            assert forall|m: int| 0 <= m < node.operands().len() implies match (#[trigger] node.operands()[m]).factor {
                Factor::Node(j) => j < i && nodes.push(node)[j as int].count() == node.operands()[m].count,
                Factor::Bundle(_) => true,
            } by {
                assert(operand_ok(nodes, table.mapping(), node.operands()[m], nodes.len() as int));
            }
        }
        self.history.push(node);
        proof {
            let nodes = self.nodes();
            assert forall|m: int| 0 <= m < nodes.len() implies {
                &&& (#[trigger] nodes[m]).wf()
                &&& nodes[m].operands().len() > 0
                &&& acyclic_at(nodes, nodes[m], m)
            } by {
                if m < i {
                    assert(old(self).nodes()[m] == nodes[m]);
                    let n_m = nodes[m];
                    assert forall|q: int| 0 <= q < n_m.operands().len() implies match (#[trigger] n_m.operands()[q]).factor {
                        Factor::Node(j) => j < m && nodes[j as int].count() == n_m.operands()[q].count,
                        Factor::Bundle(_) => true,
                    } by {
                        assert(acyclic_at(old(self).nodes(), n_m, m));
                        match n_m.operands()[q].factor {
                            Factor::Node(j) => {
                                assert(old(self).nodes()[j as int] == nodes[j as int]);
                            },
                            Factor::Bundle(_) => {},
                        }
                    }
                }
            }
        }
        Ok(i)
    }

    /// Records that node `offset` is resolved and that its result stands at `slot`.
    pub fn resolve(&mut self, offset: usize, slot: u32) -> (r: Result<(), GraphError>)
        requires
            old(self).wf(),
        ensures
            final(self).wf(),
            r is Ok <==> offset < old(self).nodes().len(),
            r is Err ==> r == Err::<(), GraphError>(GraphError::OutOfRange(offset)) && final(self).nodes() == old(self).nodes(),
            r is Ok ==> final(self).nodes().len() == old(self).nodes().len(),
            r is Ok ==> forall|i: int| 0 <= i < old(self).nodes().len() && i != offset ==> final(self).nodes()[i] == old(self).nodes()[i],
            r is Ok ==> {
                let n = final(self).nodes()[offset as int];
                &&& n.kind() == old(self).nodes()[offset as int].kind()
                &&& n.operands() == old(self).nodes()[offset as int].operands()
                &&& n.state() == State::Done(slot)
            },
    {
        if offset >= self.history.len() {
            return Err(GraphError::OutOfRange(offset));
        }
        self.history[offset].settle(slot);
        proof {
            let nodes = self.nodes();
            assert forall|m: int| 0 <= m < nodes.len() implies {
                &&& (#[trigger] nodes[m]).wf()
                &&& nodes[m].operands().len() > 0
                &&& acyclic_at(nodes, nodes[m], m)
            } by {
                let n_m = nodes[m];
                assert(old(self).nodes()[m].operands() == n_m.operands());
                assert forall|q: int| 0 <= q < n_m.operands().len() implies match (#[trigger] n_m.operands()[q]).factor {
                    Factor::Node(j) => j < m && nodes[j as int].count() == n_m.operands()[q].count,
                    Factor::Bundle(_) => true,
                } by {
                    assert(acyclic_at(old(self).nodes(), old(self).nodes()[m], m));
                    assert(old(self).nodes()[m].operands()[q] == n_m.operands()[q]);
                    match n_m.operands()[q].factor {
                        Factor::Node(j) => {
                            assert(old(self).nodes()[j as int].operands() == nodes[j as int].operands());
                        },
                        Factor::Bundle(_) => {},
                    }
                }
            }
        }
        Ok(())
    }

    /// Whether an operand is ready: a handle always is, a node once it is resolved.
    pub fn resolved(&self, factor: Factor) -> (r: bool)
        ensures
            r == match factor {
                Factor::Bundle(_) => true,
                Factor::Node(j) => j < self.nodes().len() && self.nodes()[j as int].state() != State::Pending,
            },
    {
        match factor {
            Factor::Bundle(_) => true,
            Factor::Node(j) => j < self.history.len() && self.history[j].resolved(),
        }
    }
}

} // verus!
