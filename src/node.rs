//! Operation nodes: one deferred operation over operands that are resource handles or
//! earlier nodes.
use vstd::prelude::*;

verus! {

/// Operations applied element by element.
#[derive(Clone, Copy, Debug, PartialEq, Eq, Structural)]
pub enum ElementType {
    Add,
    Sub,
    Mul,
    Div,
    Exp,
    Rot,
}

/// Operations over the whole shape of a tensor.
#[derive(Clone, Copy, Debug, PartialEq, Eq, Structural)]
pub enum DimensionalType {
    Sum,
    Determinant,
    Inverse,
    Transpose,
}

/// The kind of a node's operation.
#[derive(Clone, Copy, Debug, PartialEq, Eq, Structural)]
pub enum Shader {
    Element(ElementType),
    Dimensional(DimensionalType),
}

/// A node is pending until its graph resolves it; its result then stands at a binding slot.
#[derive(Clone, Copy, Debug, PartialEq, Eq, Structural)]
pub enum State {
    Pending,
    Done(u32),
}

/// What an operand refers to: the handle at a binding slot, or a node of the arena by index.
#[derive(Clone, Copy, Debug, PartialEq, Eq, Structural)]
pub enum Factor {
    Bundle(u32),
    Node(usize),
}

/// An operand and its element count.
#[derive(Clone, Copy, Debug, PartialEq, Eq, Structural)]
pub struct Operand {
    pub factor: Factor,
    pub count: usize,
}

/// Why a node refused an operand.
#[derive(Clone, Copy, Debug, PartialEq, Eq, Structural)]
pub enum NodeError {
    /// The node is resolved and can no longer change.
    Resolved,
    /// The operand's element count differs from that of the operands already there.
    ShapeMismatch { expected: usize, found: usize },
}

/// One deferred operation and its ordered operands.
pub struct Node {
    ty: Shader,
    factors: Vec<Operand>,
    state: State,
}

/// Whether `o` may join `ops`: the same element count as every operand already there.
pub open spec fn fits(ops: Seq<Operand>, o: Operand) -> bool {
    ops.len() == 0 || ops[0].count == o.count
}

/// All operands share one element count.
pub open spec fn same_count(ops: Seq<Operand>) -> bool {
    forall|k: int| 0 <= k < ops.len() ==> (#[trigger] ops[k]).count == ops[0].count
}

impl Node {
    /// The operands, in order.
    pub closed spec fn operands(&self) -> Seq<Operand> {
        self.factors@
    }

    pub closed spec fn state(&self) -> State {
        self.state
    }

    /// The operation the node applies.
    pub closed spec fn kind(&self) -> Shader {
        self.ty
    }

    /// The element count of the node's result: that of its operands.
    pub open spec fn count(&self) -> usize {
        self.operands()[0].count
    }

    /// Operands agree in element count.
    pub open spec fn wf(&self) -> bool {
        same_count(self.operands())
    }

    /// Begins an operation with no operands.
    pub fn create(ty: Shader) -> (r: Node)
        ensures
            r.kind() == ty,
            r.operands() == Seq::<Operand>::empty(),
            r.state() == State::Pending,
            r.wf(),
    {
        Node { ty, factors: Vec::new(), state: State::Pending }
    }

    /// Appends one operand. A resolved node refuses it; so does a pending one when the
    /// operand's element count differs from that of the operands already there.
    pub fn append(self, operand: Operand) -> (r: Result<Node, NodeError>)
        requires
            self.wf(),
        ensures
            self.state() != State::Pending ==> r == Err::<Node, NodeError>(NodeError::Resolved),
            self.state() == State::Pending && !fits(self.operands(), operand) ==> r == Err::<Node, NodeError>(
                NodeError::ShapeMismatch { expected: self.count(), found: operand.count },
            ),
            r is Ok <==> self.state() == State::Pending && fits(self.operands(), operand),
            r matches Ok(n) ==> {
                &&& n.kind() == self.kind()
                &&& n.state() == self.state()
                &&& n.operands() == self.operands().push(operand)
                &&& n.wf()
            },
    {
        let mut node = self;
        match node.state {
            State::Done(_) => {
                return Err(NodeError::Resolved);
            },
            State::Pending => {},
        }
        if node.factors.len() > 0 && node.factors[0].count != operand.count {
            return Err(NodeError::ShapeMismatch { expected: node.factors[0].count, found: operand.count });
        }
        node.factors.push(operand);
        Ok(node)
    }

    /// True once the graph has resolved the node.
    pub fn resolved(&self) -> (r: bool)
        ensures
            r == (self.state() != State::Pending),
    {
        match self.state {
            State::Pending => false,
            State::Done(_) => true,
        }
    }

    /// The state: pending, or done with its result at a slot.
    pub fn status(&self) -> (r: State)
        ensures
            r == self.state(),
    {
        self.state
    }

    /// The operation the node applies.
    pub fn ty(&self) -> (r: Shader)
        ensures
            r == self.kind(),
    {
        self.ty
    }

    /// The number of operands.
    pub fn len(&self) -> (r: usize)
        ensures
            r == self.operands().len(),
    {
        self.factors.len()
    }

    /// The operand at `i`.
    pub fn operand(&self, i: usize) -> (r: Operand)
        requires
            i < self.operands().len(),
        ensures
            r == self.operands()[i as int],
    {
        self.factors[i]
    }

    /// The node with its result recorded at `slot`.
    pub(crate) fn settle(&mut self, slot: u32)
        ensures
            final(self).kind() == old(self).kind(),
            final(self).operands() == old(self).operands(),
            final(self).state() == State::Done(slot),
    {
        self.state = State::Done(slot);
    }
}

} // verus!
