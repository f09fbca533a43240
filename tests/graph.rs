use zelkova::bundle::{Memory, Scalar};
use zelkova::history::{GraphError, History};
use zelkova::layout::Layout;
use zelkova::node::{ElementType, Factor, Node, NodeError, Operand, Shader, State};
use zelkova::tree::{NodeTree, TreeDepth, TreeStatus};

fn add(ops: &[Operand]) -> Node {
    let mut n = Node::create(Shader::Element(ElementType::Add));
    for o in ops {
        n = n.append(*o).unwrap();
    }
    n
}

#[test]
fn append_with_other_count_fails() {
    let n = Node::create(Shader::Element(ElementType::Mul));
    let n = n.append(Operand { factor: Factor::Bundle(0), count: 4 }).unwrap();
    let r = n.append(Operand { factor: Factor::Bundle(1), count: 3 });
    assert_eq!(r.err(), Some(NodeError::ShapeMismatch { expected: 4, found: 3 }));
}

#[test]
fn fresh_node_is_pending() {
    let n = Node::create(Shader::Element(ElementType::Sub));
    assert!(!n.resolved());
    assert_eq!(n.status(), State::Pending);
    assert_eq!(n.len(), 0);
}

#[test]
fn record_checks_operands() {
    let mut layout = Layout::arrange();
    let a = layout.bind(Scalar::F32, 4, Memory::Static).unwrap();
    let mut h = History::new();
    assert_eq!(h.record(&layout, Node::create(Shader::Element(ElementType::Add))), Err(GraphError::Empty));
    let dangling = add(&[Operand { factor: Factor::Bundle(9), count: 4 }]);
    assert_eq!(h.record(&layout, dangling), Err(GraphError::Dangling(Factor::Bundle(9))));
    let wrong = add(&[Operand { factor: Factor::Bundle(a), count: 5 }]);
    assert_eq!(h.record(&layout, wrong), Err(GraphError::ShapeMismatch { expected: 4, found: 5 }));
    let later = add(&[Operand { factor: Factor::Node(0), count: 4 }]);
    assert_eq!(h.record(&layout, later), Err(GraphError::Dangling(Factor::Node(0))));
    assert_eq!(h.fetch(), 0);
    let ok = add(&[Operand { factor: Factor::Bundle(a), count: 4 }, Operand { factor: Factor::Bundle(a), count: 4 }]);
    assert_eq!(h.record(&layout, ok), Ok(0));
    assert_eq!(h.fetch(), 1);
    assert_eq!(h.index(0).len(), 2);
}

fn chain() -> (Layout, History) {
    let mut layout = Layout::arrange();
    let a = layout.bind(Scalar::F32, 4, Memory::Static).unwrap();
    let b = layout.bind(Scalar::F32, 4, Memory::Static).unwrap();
    let mut h = History::new();
    let ba = Operand { factor: Factor::Bundle(a), count: 4 };
    let bb = Operand { factor: Factor::Bundle(b), count: 4 };
    // 0 = a + b, 1 = 0 * b, 2 (unrelated) = a + a, 3 = 1 - 0
    h.record(&layout, add(&[ba, bb])).unwrap();
    let n1 = Node::create(Shader::Element(ElementType::Mul))
        .append(Operand { factor: Factor::Node(0), count: 4 })
        .unwrap()
        .append(bb)
        .unwrap();
    h.record(&layout, n1).unwrap();
    h.record(&layout, add(&[ba, ba])).unwrap();
    let n3 = Node::create(Shader::Element(ElementType::Sub))
        .append(Operand { factor: Factor::Node(1), count: 4 })
        .unwrap()
        .append(Operand { factor: Factor::Node(0), count: 4 })
        .unwrap();
    h.record(&layout, n3).unwrap();
    (layout, h)
}

#[test]
fn traverse_orders_operands_first_and_is_idempotent() {
    let (_layout, h) = chain();
    let mut tree = NodeTree::create(&h, 3).unwrap();
    assert_eq!(tree.depth_class(), TreeDepth::Layered(3, TreeStatus::Pending));
    tree.traverse(&h);
    let first = tree.resolution().clone();
    assert_eq!(first, vec![0, 1, 3]);
    tree.traverse(&h);
    assert_eq!(tree.resolution(), &first);
    assert_eq!(tree.depth_class(), TreeDepth::Layered(3, TreeStatus::Ready));
}

#[test]
fn singular_when_operands_are_resolved() {
    let (_layout, h) = chain();
    let tree = NodeTree::create(&h, 0).unwrap();
    assert_eq!(tree.depth_class(), TreeDepth::Singular);
    assert!(h.resolved(Factor::Bundle(0)));
    assert!(!h.resolved(Factor::Node(0)));
}

#[test]
fn resolved_nodes_are_not_walked_again() {
    let (_layout, mut h) = chain();
    h.resolve(0, 40).unwrap();
    assert!(h.resolved(Factor::Node(0)));
    assert_eq!(h.index(0).status(), State::Done(40));
    let mut tree = NodeTree::create(&h, 3).unwrap();
    assert_eq!(tree.depth_class(), TreeDepth::Layered(2, TreeStatus::Pending));
    tree.traverse(&h);
    assert_eq!(tree.resolution(), &vec![1, 3]);
    assert_eq!(h.resolve(9, 1), Err(GraphError::OutOfRange(9)));
}

#[test]
fn link_adds_roots_until_execution_starts() {
    let (_layout, h) = chain();
    let mut tree = NodeTree::create(&h, 1).unwrap();
    tree.link(&h, 2).unwrap();
    assert_eq!(tree.roots_vec(), &vec![1, 2]);
    tree.traverse(&h);
    assert_eq!(tree.resolution(), &vec![0, 1, 2]);
    tree.start();
    assert_eq!(tree.link(&h, 3), Err(GraphError::Running));
    assert_eq!(tree.roots_vec(), &vec![1, 2]);
    assert!(NodeTree::create(&h, 4).is_err());
}

#[test]
fn tree_status_and_register() {
    assert!(TreeStatus::Ready.ok());
    assert!(!TreeStatus::Pending.ok());
    assert_eq!(TreeDepth::Singular.register(), TreeDepth::Singular);
    assert_eq!(
        TreeDepth::Layered(2, TreeStatus::Pending).register(),
        TreeDepth::Layered(2, TreeStatus::Ready)
    );
}
