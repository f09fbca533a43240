//! Code generation: one WGSL program, with one entry point, for a traversed operation graph.
use vstd::prelude::*;
use vstd::string::*;

use crate::bundle::Bundle;
use crate::history::{acyclic_at, History};
use crate::layout::Layout;
use crate::module::{decimal, header_text, packed_ref, push_decimal, slot_ref, Module, Phase};
use crate::node::{ElementType, Factor, Node, Operand, Shader, State};
use crate::tree::{lemma_singular_operands, lemma_singular_order, depth_of, pending_operand, resolution_order, NodeTree, TreeDepth};

verus! {

/// Why a graph could not be emitted.
#[derive(Clone, Copy, Debug, PartialEq, Eq, Structural)]
pub enum EmitError {
    /// The output slots do not match the graph's roots one for one.
    Outputs,
    /// The node at this index applies an operation that has no expression in the language.
    Unsupported(usize),
    /// No handle of the table stands at this slot.
    Unbound(u32),
}

/// The output slot of root `j`, from the `k`-th root on.
pub open spec fn output_from(roots: Seq<usize>, outputs: Seq<u32>, j: usize, k: int) -> Option<u32>
    decreases roots.len() - k,
{
    if k < 0 || k >= roots.len() || k >= outputs.len() {
        None
    } else if roots[k] == j {
        Some(outputs[k])
    } else {
        output_from(roots, outputs, j, k + 1)
    }
}

/// The slot that receives the result of root `j`, if `j` is a root.
pub open spec fn output_of(roots: Seq<usize>, outputs: Seq<u32>, j: usize) -> Option<u32> {
    output_from(roots, outputs, j, 0)
}

/// Where the value of node `j` can be read: its result slot once resolved, its output slot
/// when it is a root; otherwise it is held by an alias.
pub open spec fn node_slot(nodes: Seq<Node>, roots: Seq<usize>, outputs: Seq<u32>, j: usize) -> Option<u32> {
    if (j as int) < nodes.len() {
        match nodes[j as int].state() {
            State::Done(s) => Some(s),
            State::Pending => output_of(roots, outputs, j),
        }
    } else {
        None
    }
}

/// The slot that an operand reads, if it reads one.
pub open spec fn operand_slot(nodes: Seq<Node>, roots: Seq<usize>, outputs: Seq<u32>, f: Factor) -> Option<u32> {
    match f {
        Factor::Bundle(s) => Some(s),
        Factor::Node(j) => node_slot(nodes, roots, outputs, j),
    }
}

/// The alias of an intermediate result.
pub open spec fn alias_text(j: usize) -> Seq<char> {
    "v"@ + decimal(j as nat)
}

/// How the current element of the handle at `slot` is read: a uniform handle packs its
/// elements four to a vector.
pub open spec fn ref_text(table: Map<u32, Bundle>, slot: u32) -> Seq<char> {
    if table.contains_key(slot) && table[slot].usage & 0x40u32 == 0x40u32 {
        packed_ref(slot)
    } else {
        slot_ref(slot)
    }
}

pub open spec fn operand_text(table: Map<u32, Bundle>, nodes: Seq<Node>, roots: Seq<usize>, outputs: Seq<u32>, f: Factor) -> Seq<char> {
    match f {
        Factor::Bundle(s) => ref_text(table, s),
        Factor::Node(j) => match node_slot(nodes, roots, outputs, j) {
            Some(s) => ref_text(table, s),
            None => alias_text(j),
        },
    }
}

pub open spec fn op_text(e: ElementType) -> Seq<char> {
    match e {
        ElementType::Add => " + "@,
        ElementType::Sub => " - "@,
        ElementType::Mul => " * "@,
        _ => " / "@,
    }
}

/// The first `k` operands, separated by `sep`.
pub open spec fn join_text(table: Map<u32, Bundle>, nodes: Seq<Node>, roots: Seq<usize>, outputs: Seq<u32>, ops: Seq<Operand>, sep: Seq<char>, k: int) -> Seq<char>
    decreases k,
{
    if k <= 0 {
        Seq::<char>::empty()
    } else if k == 1 {
        operand_text(table, nodes, roots, outputs, ops[0].factor)
    } else {
        join_text(table, nodes, roots, outputs, ops, sep, k - 1) + sep + operand_text(table, nodes, roots, outputs, ops[k - 1].factor)
    }
}

/// Whether the language has an expression for the node's operation.
pub open spec fn supported(n: Node) -> bool {
    match n.kind() {
        Shader::Element(ElementType::Exp) => n.operands().len() == 1,
        Shader::Element(ElementType::Rot) => false,
        Shader::Element(_) => true,
        Shader::Dimensional(_) => false,
    }
}

/// The expression that computes node `n` at one element.
pub open spec fn expr_text(table: Map<u32, Bundle>, nodes: Seq<Node>, roots: Seq<usize>, outputs: Seq<u32>, n: Node) -> Seq<char> {
    match n.kind() {
        Shader::Element(ElementType::Exp) => "exp("@ + operand_text(table, nodes, roots, outputs, n.operands()[0].factor) + ")"@,
        Shader::Element(e) => "("@ + join_text(table, nodes, roots, outputs, n.operands(), op_text(e), n.operands().len() as int) + ")"@,
        Shader::Dimensional(_) => Seq::<char>::empty(),
    }
}

/// The statement for node `j`: a root writes its output slot, any other node binds an alias.
pub open spec fn stmt_text(table: Map<u32, Bundle>, nodes: Seq<Node>, roots: Seq<usize>, outputs: Seq<u32>, j: usize) -> Seq<char> {
    let n = nodes[j as int];
    match output_of(roots, outputs, j) {
        Some(out) => "    if (i < "@ + decimal(n.count() as nat) + "u) { "@ + slot_ref(out) + " = "@
            + expr_text(table, nodes, roots, outputs, n) + "; }\n"@,
        None => "    let "@ + alias_text(j) + " = "@ + expr_text(table, nodes, roots, outputs, n) + ";\n"@,
    }
}

/// The statements of the first `k` nodes of `order`.
pub open spec fn body_text(table: Map<u32, Bundle>, nodes: Seq<Node>, roots: Seq<usize>, outputs: Seq<u32>, order: Seq<usize>, k: int) -> Seq<char>
    decreases k,
{
    if k <= 0 {
        Seq::<char>::empty()
    } else {
        body_text(table, nodes, roots, outputs, order, k - 1) + stmt_text(table, nodes, roots, outputs, order[k - 1])
    }
}

pub open spec fn entry_head(size: u32) -> Seq<char> {
    "@compute @workgroup_size("@ + decimal(size as nat) + ")\nfn main(@builtin(global_invocation_id) id: vec3<u32>) {\n    let i = id.x;\n"@
}

pub open spec fn entry_tail() -> Seq<char> {
    "}\n"@
}

/// Slots read by the first `k` operands, in order.
pub open spec fn node_refs(nodes: Seq<Node>, roots: Seq<usize>, outputs: Seq<u32>, ops: Seq<Operand>, k: int) -> Seq<u32>
    decreases k,
{
    if k <= 0 {
        Seq::<u32>::empty()
    } else {
        match operand_slot(nodes, roots, outputs, ops[k - 1].factor) {
            Some(s) => node_refs(nodes, roots, outputs, ops, k - 1).push(s),
            None => node_refs(nodes, roots, outputs, ops, k - 1),
        }
    }
}

/// Slots read by the first `p` nodes of `order`, in order.
pub open spec fn order_refs(nodes: Seq<Node>, roots: Seq<usize>, outputs: Seq<u32>, order: Seq<usize>, p: int) -> Seq<u32>
    decreases p,
{
    if p <= 0 {
        Seq::<u32>::empty()
    } else {
        let ops = nodes[order[p - 1] as int].operands();
        order_refs(nodes, roots, outputs, order, p - 1) + node_refs(nodes, roots, outputs, ops, ops.len() as int)
    }
}

/// Every slot the program touches, in order of first use, repeats included: what the nodes
/// read, then the roots' outputs.
pub open spec fn all_refs(nodes: Seq<Node>, roots: Seq<usize>, outputs: Seq<u32>, order: Seq<usize>) -> Seq<u32> {
    order_refs(nodes, roots, outputs, order, order.len() as int) + outputs
}

/// The first `k` items of `s` with repeats dropped, first occurrences kept in order.
pub open spec fn dedup(s: Seq<u32>, k: int) -> Seq<u32>
    decreases k,
{
    if k <= 0 {
        Seq::<u32>::empty()
    } else if dedup(s, k - 1).contains(s[k - 1]) {
        dedup(s, k - 1)
    } else {
        dedup(s, k - 1).push(s[k - 1])
    }
}

/// The slots the program declares: each slot it touches, once.
pub open spec fn header_slots(nodes: Seq<Node>, roots: Seq<usize>, outputs: Seq<u32>, order: Seq<usize>) -> Seq<u32> {
    let refs = all_refs(nodes, roots, outputs, order);
    dedup(refs, refs.len() as int)
}

pub open spec fn headers_text(table: Map<u32, Bundle>, slots: Seq<u32>, k: int) -> Seq<char>
    decreases k,
{
    if k <= 0 {
        Seq::<char>::empty()
    } else {
        headers_text(table, slots, k - 1) + header_text(table[slots[k - 1]])
    }
}

/// The whole program: declarations, then the single entry point.
pub open spec fn program_text(
    table: Map<u32, Bundle>,
    nodes: Seq<Node>,
    roots: Seq<usize>,
    outputs: Seq<u32>,
    order: Seq<usize>,
    size: u32,
) -> Seq<char> {
    let slots = header_slots(nodes, roots, outputs, order);
    headers_text(table, slots, slots.len() as int) + entry_head(size) + body_text(table, nodes, roots, outputs, order, order.len() as int)
        + entry_tail()
}

/// A finished program: its source and, in declaration order, the handles it binds.
pub struct Program {
    pub source: String,
    pub bindings: Vec<Bundle>,
}

fn find_output(roots: &Vec<usize>, outputs: &Vec<u32>, j: usize) -> (r: Option<u32>)
    ensures
        r == output_of(roots@, outputs@, j),
{
    let mut k: usize = 0;
    while k < roots.len() && k < outputs.len()
        invariant
            output_of(roots@, outputs@, j) == output_from(roots@, outputs@, j, k as int),
        decreases roots@.len() - k,
    {
        if roots[k] == j {
            return Some(outputs[k]);
        }
        k = k + 1;
    }
    None
}

fn find_node_slot(history: &History, roots: &Vec<usize>, outputs: &Vec<u32>, j: usize) -> (r: Option<u32>)
    ensures
        r == node_slot(history.nodes(), roots@, outputs@, j),
{
    if j >= history.fetch() {
        return None;
    }
    match history.index(j).status() {
        State::Done(s) => Some(s),
        State::Pending => find_output(roots, outputs, j),
    }
}

fn find_operand_slot(history: &History, roots: &Vec<usize>, outputs: &Vec<u32>, f: Factor) -> (r: Option<u32>)
    ensures
        r == operand_slot(history.nodes(), roots@, outputs@, f),
{
    match f {
        Factor::Bundle(s) => Some(s),
        Factor::Node(j) => find_node_slot(history, roots, outputs, j),
    }
}

fn push_slot_ref(s: &mut String, slot: u32)
    ensures
        final(s)@ == old(s)@ + slot_ref(slot),
{
    s.append("tsr");
    push_decimal(s, slot as u64);
    s.append("[i]");
    assert(final(s)@ =~= old(s)@ + slot_ref(slot));
}

fn push_ref(s: &mut String, table: &Layout, slot: u32)
    ensures
        final(s)@ == old(s)@ + ref_text(table.mapping(), slot),
{
    let uniform = match table.get(slot) {
        Some(b) => b.is_uniform(),
        None => false,
    };
    if uniform {
        s.append("tsr");
        push_decimal(s, slot as u64);
        s.append("[i / 4u][i % 4u]");
        assert(final(s)@ =~= old(s)@ + packed_ref(slot));
    } else {
        push_slot_ref(s, slot);
    }
}

fn push_operand(s: &mut String, table: &Layout, history: &History, roots: &Vec<usize>, outputs: &Vec<u32>, f: Factor)
    ensures
        final(s)@ == old(s)@ + operand_text(table.mapping(), history.nodes(), roots@, outputs@, f),
{
    match f {
        Factor::Bundle(slot) => push_ref(s, table, slot),
        Factor::Node(j) => match find_node_slot(history, roots, outputs, j) {
            Some(slot) => push_ref(s, table, slot),
            None => {
                s.append("v");
                push_decimal(s, j as u64);
                assert(final(s)@ =~= old(s)@ + alias_text(j));
            },
        },
    }
}

fn op_str(e: ElementType) -> (r: &'static str)
    ensures
        r@ == op_text(e),
{
    match e {
        ElementType::Add => " + ",
        ElementType::Sub => " - ",
        ElementType::Mul => " * ",
        _ => " / ",
    }
}

fn is_supported(n: &Node) -> (r: bool)
    ensures
        r == supported(*n),
{
    match n.ty() {
        Shader::Element(ElementType::Exp) => n.len() == 1,
        Shader::Element(ElementType::Rot) => false,
        Shader::Element(_) => true,
        Shader::Dimensional(_) => false,
    }
}

fn push_expr(s: &mut String, table: &Layout, history: &History, roots: &Vec<usize>, outputs: &Vec<u32>, n: &Node)
    requires
        supported(*n),
    ensures
        final(s)@ == old(s)@ + expr_text(table.mapping(), history.nodes(), roots@, outputs@, *n),
{
    let ghost nodes = history.nodes();
    match n.ty() {
        Shader::Element(ElementType::Exp) => {
            s.append("exp(");
            push_operand(s, table, history, roots, outputs, n.operand(0).factor);
            s.append(")");
            assert(final(s)@ =~= old(s)@ + expr_text(table.mapping(), nodes, roots@, outputs@, *n));
        },
        Shader::Element(e) => {
            let sep = op_str(e);
            s.append("(");
            let ghost c0 = s@;
            let len = n.len();
            let mut k: usize = 0;
            while k < len
                invariant
                    nodes == history.nodes(),
                    len == n.operands().len(),
                    k <= len,
                    sep@ == op_text(e),
                    s@ == c0 + join_text(table.mapping(), nodes, roots@, outputs@, n.operands(), op_text(e), k as int),
                decreases len - k,
            {
                if k > 0 {
                    s.append(sep);
                }
                push_operand(s, table, history, roots, outputs, n.operand(k).factor);
                proof {
                    let ops = n.operands();
                    let t = operand_text(table.mapping(), nodes, roots@, outputs@, ops[k as int].factor);
                    if k == 0 {
                        assert(join_text(table.mapping(), nodes, roots@, outputs@, ops, op_text(e), 1) == t);
                        assert(s@ =~= c0 + t);
                    } else {
                        let jk = join_text(table.mapping(), nodes, roots@, outputs@, ops, op_text(e), k as int);
                        assert(join_text(table.mapping(), nodes, roots@, outputs@, ops, op_text(e), k as int + 1) == jk + op_text(e) + t);
                        assert(s@ =~= c0 + (jk + op_text(e) + t));
                    }
                }
                k = k + 1;
            }
            s.append(")");
            assert(final(s)@ =~= old(s)@ + expr_text(table.mapping(), nodes, roots@, outputs@, *n));
        },
        Shader::Dimensional(_) => {},
    }
}

fn push_stmt(s: &mut String, table: &Layout, history: &History, roots: &Vec<usize>, outputs: &Vec<u32>, j: usize)
    requires
        history.wf(),
        j < history.nodes().len(),
        supported(history.nodes()[j as int]),
    ensures
        final(s)@ == old(s)@ + stmt_text(table.mapping(), history.nodes(), roots@, outputs@, j),
{
    let ghost nodes = history.nodes();
    let n = history.index(j);
    match find_output(roots, outputs, j) {
        Some(out) => {
            s.append("    if (i < ");
            push_decimal(s, n.operand(0).count as u64);
            s.append("u) { ");
            push_slot_ref(s, out);
            s.append(" = ");
            assert(s@ =~= old(s)@ + ("    if (i < "@ + decimal(n.count() as nat) + "u) { "@ + slot_ref(out) + " = "@));
            let ghost c1 = s@;
            push_expr(s, table, history, roots, outputs, n);
            s.append("; }\n");
            assert(s@ =~= c1 + (expr_text(table.mapping(), nodes, roots@, outputs@, *n) + "; }\n"@));
            let ghost pre = "    if (i < "@ + decimal(n.count() as nat) + "u) { "@ + slot_ref(out) + " = "@;
            let ghost post = expr_text(table.mapping(), nodes, roots@, outputs@, *n) + "; }\n"@;
            assert(c1 == old(s)@ + pre);
            assert(s@ =~= (old(s)@ + pre) + post);
            assert(pre + post =~= stmt_text(table.mapping(), nodes, roots@, outputs@, j));
            assert(s@ =~= old(s)@ + stmt_text(table.mapping(), nodes, roots@, outputs@, j));
        },
        None => {
            s.append("    let ");
            s.append("v");
            push_decimal(s, j as u64);
            s.append(" = ");
            push_expr(s, table, history, roots, outputs, n);
            s.append(";\n");
            assert(final(s)@ =~= old(s)@ + stmt_text(table.mapping(), nodes, roots@, outputs@, j));
        },
    }
}

fn contains(v: &Vec<u32>, x: u32) -> (r: bool)
    ensures
        r == v@.contains(x),
{
    let mut k: usize = 0;
    while k < v.len()
        invariant
            k <= v@.len(),
            forall|q: int| 0 <= q < k ==> v@[q] != x,
        decreases v@.len() - k,
    {
        if v[k] == x {
            return true;
        }
        k = k + 1;
    }
    false
}

/// Every slot the program touches, repeats included.
fn collect_refs(history: &History, roots: &Vec<usize>, outputs: &Vec<u32>, order: &Vec<usize>) -> (r: Vec<u32>)
    requires
        history.wf(),
        forall|k: int| 0 <= k < order@.len() ==> ((#[trigger] order@[k]) as int) < history.nodes().len(),
    ensures
        r@ == all_refs(history.nodes(), roots@, outputs@, order@),
{
    let ghost nodes = history.nodes();
    let mut refs: Vec<u32> = Vec::new();
    let mut p: usize = 0;
    while p < order.len()
        invariant
            nodes == history.nodes(),
            forall|k: int| 0 <= k < order@.len() ==> ((#[trigger] order@[k]) as int) < nodes.len(),
            p <= order@.len(),
            refs@ == order_refs(nodes, roots@, outputs@, order@, p as int),
        decreases order@.len() - p,
    {
        let n = history.index(order[p]);
        let len = n.len();
        let ghost base = refs@;
        let mut k: usize = 0;
        while k < len
            invariant
                nodes == history.nodes(),
                len == n.operands().len(),
                k <= len,
                refs@ == base + node_refs(nodes, roots@, outputs@, n.operands(), k as int),
            decreases len - k,
        {
            match find_operand_slot(history, roots, outputs, n.operand(k).factor) {
                Some(s) => {
                    refs.push(s);
                },
                None => {},
            }
            assert(refs@ =~= base + node_refs(nodes, roots@, outputs@, n.operands(), k as int + 1));
            k = k + 1;
        }
        p = p + 1;
    }
    let ghost body = refs@;
    let mut k: usize = 0;
    while k < outputs.len()
        invariant
            k <= outputs@.len(),
            refs@ == body + outputs@.take(k as int),
        decreases outputs@.len() - k,
    {
        refs.push(outputs[k]);
        assert(refs@ =~= body + outputs@.take(k as int + 1));
        k = k + 1;
    }
    assert(outputs@.take(outputs@.len() as int) =~= outputs@);
    refs
}

/// Drops repeats, keeping first occurrences in order.
fn dedup_slots(refs: &Vec<u32>) -> (r: Vec<u32>)
    ensures
        r@ == dedup(refs@, refs@.len() as int),
{
    let mut slots: Vec<u32> = Vec::new();
    let mut k: usize = 0;
    while k < refs.len()
        invariant
            k <= refs@.len(),
            slots@ == dedup(refs@, k as int),
        decreases refs@.len() - k,
    {
        if !contains(&slots, refs[k]) {
            slots.push(refs[k]);
        }
        k = k + 1;
    }
    slots
}

/// The handles at `slots`, or the first slot that holds none.
fn lookup(table: &Layout, slots: &Vec<u32>) -> (r: Result<Vec<Bundle>, EmitError>)
    ensures
        r is Ok <==> forall|k: int| 0 <= k < slots@.len() ==> table.mapping().contains_key(#[trigger] slots@[k]),
        r matches Ok(b) ==> b@ == slots@.map_values(|s: u32| table.mapping()[s]),
        r matches Err(e) ==> exists|k: int| 0 <= k < slots@.len() && e == EmitError::Unbound(#[trigger] slots@[k])
            && !table.mapping().contains_key(slots@[k]),
{
    let mut out: Vec<Bundle> = Vec::new();
    let mut k: usize = 0;
    while k < slots.len()
        invariant
            k <= slots@.len(),
            forall|q: int| 0 <= q < k ==> table.mapping().contains_key(#[trigger] slots@[q]),
            out@ == slots@.take(k as int).map_values(|s: u32| table.mapping()[s]),
        decreases slots@.len() - k,
    {
        match table.get(slots[k]) {
            Some(b) => {
                out.push(b);
            },
            None => {
                return Err(EmitError::Unbound(slots[k]));
            },
        }
        assert(out@ =~= slots@.take(k as int + 1).map_values(|s: u32| table.mapping()[s]));
        k = k + 1;
    }
    assert(slots@.take(slots@.len() as int) =~= slots@);
    Ok(out)
}

/// Compiles the registered resolution order of `tree` into one program: a declaration for
/// each slot it touches, once, then one entry point whose body computes each node in order.
/// Each root writes its result to the slot that `outputs` gives at the root's position.
pub fn compile(table: &Layout, history: &History, tree: &NodeTree, outputs: &Vec<u32>, size: u32) -> (r: Result<Program, EmitError>)
    requires
        table.wf(),
        history.wf(),
        tree.wf(history.nodes()),
    ensures
        outputs@.len() != tree.roots().len() ==> r == Err::<Program, EmitError>(EmitError::Outputs),
        r is Ok <==> {
            &&& outputs@.len() == tree.roots().len()
            &&& forall|p: int| 0 <= p < tree.order().len() ==> supported(history.nodes()[#[trigger] tree.order()[p] as int])
            &&& forall|k: int| 0 <= k < header_slots(history.nodes(), tree.roots(), outputs@, tree.order()).len()
                ==> table.mapping().contains_key(#[trigger] header_slots(history.nodes(), tree.roots(), outputs@, tree.order())[k])
        },
        r matches Ok(p) ==> {
            &&& p.source@ == program_text(table.mapping(), history.nodes(), tree.roots(), outputs@, tree.order(), size)
            &&& p.bindings@ == header_slots(history.nodes(), tree.roots(), outputs@, tree.order()).map_values(
                |s: u32| table.mapping()[s],
            )
        },
{
    let ghost nodes = history.nodes();
    let roots = tree.roots_vec();
    let order = tree.resolution();
    if outputs.len() != roots.len() {
        return Err(EmitError::Outputs);
    }
    let mut p: usize = 0;
    while p < order.len()
        invariant
            nodes == history.nodes(),
            order@ == tree.order(),
            roots@ == tree.roots(),
            outputs@.len() == roots@.len(),
            tree.wf(nodes),
            p <= order@.len(),
            forall|q: int| 0 <= q < p ==> supported(nodes[#[trigger] order@[q] as int]),
        decreases order@.len() - p,
    {
        let j = order[p];
        assert(order@[p as int] == tree.order()[p as int]);
        if !is_supported(history.index(j)) {
            return Err(EmitError::Unsupported(j));
        }
        p = p + 1;
    }
    let refs = collect_refs(history, roots, outputs, order);
    let slots = dedup_slots(&refs);
    let bindings = match lookup(table, &slots) {
        Ok(b) => b,
        Err(e) => {
            proof {
                let hs = header_slots(nodes, tree.roots(), outputs@, tree.order());
                assert(slots@ == hs);
                let w = choose|w: int| 0 <= w < slots@.len() && e == EmitError::Unbound(#[trigger] slots@[w])
                    && !table.mapping().contains_key(slots@[w]);
                assert(!table.mapping().contains_key(hs[w]));
            }
            return Err(e);
        },
    };
    proof {
        lemma_dedup(refs@, refs@.len() as int);
    }
    let mut m = Module::new();
    let mut k: usize = 0;
    while k < bindings.len()
        invariant
            table.wf(),
            slots@.no_duplicates(),
            forall|q: int| 0 <= q < slots@.len() ==> table.mapping().contains_key(#[trigger] slots@[q]),
            bindings@ == slots@.map_values(|s: u32| table.mapping()[s]),
            k <= bindings@.len(),
            m.phase() == Phase::Headers,
            m.declared() == slots@.take(k as int),
            m.content() == headers_text(table.mapping(), slots@, k as int),
        decreases bindings@.len() - k,
    {
        let b = &bindings[k];
        let ghost slot = slots@[k as int];
        assert(*b == table.mapping()[slot]);
        assert(table.mapping().contains_key(slot));
        assert(b.props.binding == slot);
        assert(!m.declared().contains(slot)) by {
            if m.declared().contains(slot) {
                let w = choose|w: int| 0 <= w < m.declared().len() && m.declared()[w] == slot;
                assert(slots@[w] == slots@[k as int]);
            }
        }
        let _ = m.insert_header(b);
        assert(m.declared() =~= slots@.take(k as int + 1));
        k = k + 1;
    }
    let mut head = String::new();
    head.append("@compute @workgroup_size(");
    push_decimal(&mut head, size as u64);
    head.append(")\nfn main(@builtin(global_invocation_id) id: vec3<u32>) {\n    let i = id.x;\n");
    assert(head@ =~= entry_head(size));
    let _ = m.insert_compute(head.as_str());
    let ghost start = m.content();
    let mut q: usize = 0;
    while q < order.len()
        invariant
            nodes == history.nodes(),
            history.wf(),
            order@ == tree.order(),
            roots@ == tree.roots(),
            tree.wf(nodes),
            forall|x: int| 0 <= x < order@.len() ==> supported(nodes[#[trigger] order@[x] as int]),
            q <= order@.len(),
            m.phase() == Phase::Compute,
            m.content() == start + body_text(table.mapping(), nodes, roots@, outputs@, order@, q as int),
        decreases order@.len() - q,
    {
        let j = order[q];
        assert(order@[q as int] == tree.order()[q as int]);
        let mut stmt = String::new();
        push_stmt(&mut stmt, table, history, roots, outputs, j);
        let _ = m.insert_compute(stmt.as_str());
        assert(m.content() =~= start + body_text(table.mapping(), nodes, roots@, outputs@, order@, q as int + 1));
        q = q + 1;
    }
    let _ = m.insert_compute("}\n");
    let _ = m.finish();
    let source = m.into_source();
    assert(source@ =~= program_text(table.mapping(), nodes, roots@, outputs@, order@, size));
    Ok(Program { source, bindings })
}

pub(crate) proof fn lemma_dedup(s: Seq<u32>, k: int)
    requires
        0 <= k <= s.len(),
    ensures
        dedup(s, k).no_duplicates(),
        forall|x: u32| dedup(s, k).contains(x) <==> exists|i: int| 0 <= i < k && s[i] == x,
    decreases k,
{
    if k > 0 {
        lemma_dedup(s, k - 1);
        let d = dedup(s, k - 1);
        if !d.contains(s[k - 1]) {
            let e = d.push(s[k - 1]);
            assert forall|a: int, b: int| 0 <= a < b < e.len() implies e[a] != e[b] by {
                if b == e.len() - 1 {
                    assert(e[a] == d[a]);
                } else {
                    assert(e[a] == d[a] && e[b] == d[b]);
                }
            }
            assert forall|x: u32| e.contains(x) <==> exists|i: int| 0 <= i < k && s[i] == x by {
                if e.contains(x) {
                    let w = choose|w: int| 0 <= w < e.len() && e[w] == x;
                    if w < d.len() {
                        assert(d[w] == x);
                        assert(d.contains(x));
                    } else {
                        assert(s[k - 1] == x);
                    }
                }
                if exists|i: int| 0 <= i < k && s[i] == x {
                    let i = choose|i: int| 0 <= i < k && s[i] == x;
                    if i < k - 1 {
                        assert(d.contains(x));
                        let w = choose|w: int| 0 <= w < d.len() && d[w] == x;
                        assert(e[w] == x);
                    } else {
                        assert(e[e.len() - 1] == x);
                    }
                }
            }
        } else {
            assert forall|x: u32| d.contains(x) <==> exists|i: int| 0 <= i < k && s[i] == x by {
                if exists|i: int| 0 <= i < k && s[i] == x {
                    let i = choose|i: int| 0 <= i < k && s[i] == x;
                    if i == k - 1 {
                        assert(d.contains(x));
                    }
                }
            }
        }
    }
}

/// The program declares each slot it touches exactly once: the declared slots hold no
/// repeat, and a slot is declared exactly when the nodes of the order read it or a root
/// writes it, however many nodes read it.
pub proof fn lemma_headers_once(nodes: Seq<Node>, roots: Seq<usize>, outputs: Seq<u32>, order: Seq<usize>)
    ensures
        header_slots(nodes, roots, outputs, order).no_duplicates(),
        forall|x: u32| header_slots(nodes, roots, outputs, order).contains(x) <==> all_refs(nodes, roots, outputs, order).contains(x),
{
    let refs = all_refs(nodes, roots, outputs, order);
    lemma_dedup(refs, refs.len() as int);
    assert forall|x: u32| header_slots(nodes, roots, outputs, order).contains(x) <==> refs.contains(x) by {
        if refs.contains(x) {
            let i = choose|i: int| 0 <= i < refs.len() && refs[i] == x;
            assert(exists|i: int| 0 <= i < refs.len() && refs[i] == x);
        }
    }
}

/// A graph whose single root has only resolved operands (`Singular` depth) resolves that root
/// alone: the entry point's body is the one statement that writes the root's expression to
/// its output slot, and every operand of the expression reads a slot, so no alias is emitted.
pub proof fn lemma_singular_single_statement(table: Map<u32, Bundle>, h: History, r: usize, out: u32)
    requires
        h.nodes().len() <= usize::MAX,
        h.wf(),
        (r as int) < h.nodes().len(),
        depth_of(h.nodes(), seq![r]) == TreeDepth::Singular,
    ensures
        resolution_order(h.nodes(), seq![r]) == seq![r],
        body_text(table, h.nodes(), seq![r], seq![out], seq![r], 1) == "    if (i < "@ + decimal(h.nodes()[r as int].count() as nat)
            + "u) { "@ + slot_ref(out) + " = "@ + expr_text(table, h.nodes(), seq![r], seq![out], h.nodes()[r as int]) + "; }\n"@,
        forall|q: int| 0 <= q < h.nodes()[r as int].operands().len() ==> (operand_slot(h.nodes(), seq![r], seq![out], #[trigger] h.nodes()[r as int].operands()[q].factor) is Some),
{
    let nodes = h.nodes();
    lemma_singular_order(h, r);
    lemma_singular_operands(nodes, r);
    assert(output_from(seq![r], seq![out], r, 0) == Some(out));
    assert(body_text(table, nodes, seq![r], seq![out], seq![r], 0) == Seq::<char>::empty());
    assert(body_text(table, nodes, seq![r], seq![out], seq![r], 1) =~= stmt_text(table, nodes, seq![r], seq![out], r));
    assert forall|q: int| 0 <= q < nodes[r as int].operands().len() implies (operand_slot(nodes, seq![r], seq![out], #[trigger] nodes[r as int].operands()[q].factor) is Some) by {
        let f = nodes[r as int].operands()[q].factor;
        assert(!pending_operand(nodes, f, r as int));
        assert(acyclic_at(nodes, nodes[r as int], r as int));
        match f {
            Factor::Node(j) => {
                assert(j < r);
            },
            Factor::Bundle(_) => {},
        }
    }
}

} // verus!
