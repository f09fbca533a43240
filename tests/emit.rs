use zelkova::builder::{compile, EmitError};
use zelkova::bundle::{Bundle, Memory, Scalar};
use zelkova::history::History;
use zelkova::instance::{Instance, InstanceOpts, SessionError};
use zelkova::layout::Layout;
use zelkova::module::{push_decimal, Directive, Module, ModuleError, Phase};
use zelkova::node::{DimensionalType, ElementType, Factor, Node, Operand, Shader};
use zelkova::tensor::TensorOrder;
use zelkova::tree::NodeTree;
use zelkova::{init, Owned};

#[test]
fn doubling_program_is_exact() {
    let mut inst = init();
    let a = inst.bind(Scalar::F32, TensorOrder::new(vec![4])).unwrap();
    let twice = inst.add(&a, &a).unwrap();
    let plan = inst.prepare(&twice).unwrap();
    let expected = "@group(0) @binding(0) var<uniform> tsr0: array<vec4<f32>, 1>;\n\
@group(0) @binding(1) var<storage, read_write> tsr1: array<f32>;\n\
@compute @workgroup_size(64)\n\
fn main(@builtin(global_invocation_id) id: vec3<u32>) {\n    let i = id.x;\n    if (i < 4u) { tsr1[i] = (tsr0[i / 4u][i % 4u] + tsr0[i / 4u][i % 4u]); }\n}\n";
    assert_eq!(plan.program.source, expected);
    assert_eq!(plan.output, 1);
    assert_eq!(plan.workgroups, 1);
    assert_eq!(plan.program.bindings.len(), 2);
    assert_eq!(plan.program.bindings[0].props.binding, 0);
    assert_eq!(plan.program.bindings[1].props.memory, Memory::Dynamic);
    inst.complete(&plan).unwrap();
    assert!(inst.layout().get(1).unwrap().ready());
    assert!(inst.history().index(0).resolved());
}

#[test]
fn singular_graph_emits_no_alias() {
    let mut inst = init();
    let a = inst.bind(Scalar::F32, TensorOrder::new(vec![2, 2])).unwrap();
    let b = inst.bind(Scalar::F32, TensorOrder::new(vec![2, 2])).unwrap();
    let c = inst.mul(&a, &b).unwrap();
    let plan = inst.prepare(&c).unwrap();
    assert!(!plan.program.source.contains("let v"));
    assert!(plan.program.source.ends_with("    let i = id.x;\n    if (i < 4u) { tsr2[i] = (tsr0[i / 4u][i % 4u] * tsr1[i / 4u][i % 4u]); }\n}\n"));
}

#[test]
fn nested_graph_emits_aliases_in_order() {
    let mut inst = init();
    let a = inst.bind(Scalar::I32, TensorOrder::new(vec![3])).unwrap();
    let b = inst.bind(Scalar::I32, TensorOrder::new(vec![3])).unwrap();
    let s = inst.sub(&a, &b).unwrap();
    let d = inst.div(&s, &a).unwrap();
    let plan = inst.prepare(&d).unwrap();
    let src = &plan.program.source;
    assert!(src.contains("    let v0 = (tsr0[i / 4u][i % 4u] - tsr1[i / 4u][i % 4u]);\n    if (i < 3u) { tsr2[i] = (v0 / tsr0[i / 4u][i % 4u]); }\n"));
    assert_eq!(plan.tree.resolution(), &vec![0, 1]);
}

#[test]
fn shared_handle_is_declared_once() {
    let mut inst = init();
    let a = inst.bind(Scalar::F32, TensorOrder::new(vec![8])).unwrap();
    let b = inst.bind(Scalar::F32, TensorOrder::new(vec![8])).unwrap();
    let x = inst.add(&a, &b).unwrap();
    let y = inst.mul(&x, &a).unwrap();
    let z = inst.sub(&y, &a).unwrap();
    let plan = inst.prepare(&z).unwrap();
    let src = &plan.program.source;
    assert_eq!(src.matches("@binding(0)").count(), 1);
    assert_eq!(src.matches("@binding(1)").count(), 1);
    assert_eq!(src.matches("@binding(2)").count(), 1);
    assert_eq!(src.matches("@group(0)").count(), 3);
    assert_eq!(plan.program.bindings.len(), 3);
}

#[test]
fn resolved_operand_reads_its_result_slot() {
    let mut inst = init();
    let a = inst.bind(Scalar::F32, TensorOrder::new(vec![4])).unwrap();
    let x = inst.add(&a, &a).unwrap();
    let plan = inst.prepare(&x).unwrap();
    inst.complete(&plan).unwrap();
    let y = inst.mul(&x, &a).unwrap();
    let plan2 = inst.prepare(&y).unwrap();
    assert!(plan2.program.source.contains("tsr2[i] = (tsr1[i] * tsr0[i / 4u][i % 4u]);"));
    assert!(!plan2.program.source.contains("let v"));
}

#[test]
fn mismatched_shapes_are_refused_before_any_text() {
    let mut inst = init();
    let a = inst.bind(Scalar::F32, TensorOrder::new(vec![4])).unwrap();
    let b = inst.bind(Scalar::F32, TensorOrder::new(vec![5])).unwrap();
    let c = inst.bind(Scalar::F32, TensorOrder::new(vec![2, 2])).unwrap();
    let d = inst.bind(Scalar::U32, TensorOrder::new(vec![4])).unwrap();
    assert_eq!(inst.add(&a, &b).err(), Some(SessionError::Shape));
    assert_eq!(inst.add(&a, &c).err(), Some(SessionError::Shape));
    assert_eq!(inst.add(&a, &d).err(), Some(SessionError::Shape));
    assert_eq!(inst.history().fetch(), 0);
    assert_eq!(inst.prepare(&a).err(), Some(SessionError::Leaf));
}

#[test]
fn bind_refuses_oversized_shapes() {
    let mut inst = init();
    let r = inst.bind(Scalar::F32, TensorOrder::new(vec![65536, 65536]));
    assert_eq!(r.err(), Some(SessionError::Size));
    assert_eq!(inst.layout().get(0), None);
}

#[test]
fn options_set_the_workgroup() {
    let opts = InstanceOpts { workgroup: 32 };
    let mut inst = Instance::with_opts(opts).unwrap();
    let a = inst.bind(Scalar::F32, TensorOrder::new(vec![100])).unwrap();
    let x = inst.add(&a, &a).unwrap();
    let plan = inst.prepare(&x).unwrap();
    assert!(plan.program.source.contains("@workgroup_size(32)"));
    assert_eq!(plan.workgroups, 4);
    assert_eq!(InstanceOpts::default().workgroup, 64);
    assert_eq!(Instance::with_opts(InstanceOpts { workgroup: 0 }).err(), Some(SessionError::Workgroup));
}

#[test]
fn unsupported_operations_are_reported() {
    let mut layout = Layout::arrange();
    let a = layout.bind(Scalar::F32, 4, Memory::Static).unwrap();
    let out = layout.bind(Scalar::F32, 4, Memory::Dynamic).unwrap();
    let mut h = History::new();
    let op = Operand { factor: Factor::Bundle(a), count: 4 };
    let n = Node::create(Shader::Dimensional(DimensionalType::Sum)).append(op).unwrap();
    h.record(&layout, n).unwrap();
    let mut tree = NodeTree::create(&h, 0).unwrap();
    tree.traverse(&h);
    assert_eq!(compile(&layout, &h, &tree, &vec![out], 64).err(), Some(EmitError::Unsupported(0)));
    assert_eq!(compile(&layout, &h, &tree, &vec![], 64).err(), Some(EmitError::Outputs));
}

#[test]
fn exp_and_unbound_output() {
    let mut layout = Layout::arrange();
    let a = layout.bind(Scalar::F32, 4, Memory::Static).unwrap();
    let mut h = History::new();
    let op = Operand { factor: Factor::Bundle(a), count: 4 };
    let n = Node::create(Shader::Element(ElementType::Exp)).append(op).unwrap();
    h.record(&layout, n).unwrap();
    let mut tree = NodeTree::create(&h, 0).unwrap();
    tree.traverse(&h);
    assert_eq!(compile(&layout, &h, &tree, &vec![12], 64).err(), Some(EmitError::Unbound(12)));
    let out = layout.bind(Scalar::F32, 4, Memory::Dynamic).unwrap();
    let p = compile(&layout, &h, &tree, &vec![out], 64).unwrap();
    assert!(p.source.contains("    if (i < 4u) { tsr1[i] = exp(tsr0[i / 4u][i % 4u]); }\n"));
}

#[test]
fn module_phases_keep_headers_before_body() {
    let mut m = Module::new();
    assert_eq!(m.current(), Phase::Headers);
    m.insert_directive(Directive::F16).unwrap();
    let b = Bundle::bind_rt(Scalar::U32, 3, 10);
    m.insert_header(&b).unwrap();
    m.insert_compute("body;\n").unwrap();
    assert_eq!(m.current(), Phase::Compute);
    assert_eq!(m.insert_header(&b), Err(ModuleError::Phase(Phase::Compute)));
    assert_eq!(m.insert_directive(Directive::F16), Err(ModuleError::Phase(Phase::Compute)));
    m.write("// end").unwrap();
    m.finish().unwrap();
    assert_eq!(m.write("late"), Err(ModuleError::Phase(Phase::Ready)));
    assert_eq!(m.insert_compute("late"), Err(ModuleError::Phase(Phase::Ready)));
    assert_eq!(m.finish(), Err(ModuleError::Phase(Phase::Ready)));
    assert_eq!(
        m.wrap(),
        "enable f16;\n@group(0) @binding(10) var<storage, read_write> tsr10: array<u32>;\nbody;\n// end\n"
    );
    assert_eq!(Directive::F16.extension(), "f16");
}

#[test]
fn repeated_header_is_declared_once() {
    let mut m = Module::new();
    let a = Bundle::bind_st(Scalar::F32, 4, 0);
    let b = Bundle::bind_rt(Scalar::F32, 4, 1);
    m.insert_header(&a).unwrap();
    m.insert_header(&b).unwrap();
    let once = m.wrap().to_string();
    m.insert_header(&a).unwrap();
    m.insert_header(&b).unwrap();
    assert_eq!(m.wrap(), once);
    assert_eq!(m.wrap().matches("@binding(0)").count(), 1);
    assert_eq!(m.wrap().matches("@binding(1)").count(), 1);
    assert!(m.declares(0) && m.declares(1) && !m.declares(2));
}

#[test]
fn header_without_buffer_usage_is_refused() {
    let mut m = Module::new();
    let mut b = Bundle::bind_st(Scalar::F32, 4, 3);
    b.usage = 0x8;
    assert_eq!(m.insert_header(&b), Err(ModuleError::Usage(3)));
    assert_eq!(m.wrap(), "");
    assert!(!m.declares(3));
}

#[test]
fn static_header_carries_its_count() {
    let mut m = Module::new();
    m.insert_header(&Bundle::bind_st(Scalar::I32, 125, 7)).unwrap();
    assert_eq!(m.wrap(), "@group(0) @binding(7) var<uniform> tsr7: array<vec4<i32>, 32>;\n");
}

#[test]
fn decimal_notation() {
    let mut s = String::new();
    push_decimal(&mut s, 0);
    s.push(' ');
    push_decimal(&mut s, 9);
    s.push(' ');
    push_decimal(&mut s, 10);
    s.push(' ');
    push_decimal(&mut s, 4294967295);
    s.push(' ');
    push_decimal(&mut s, u64::MAX);
    assert_eq!(s, "0 9 10 4294967295 18446744073709551615");
}

#[test]
fn owned_label() {
    assert_eq!(Owned::from("buffer"), "zelkova owned buffer.");
}
