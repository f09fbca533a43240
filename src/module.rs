//! Shader text: the module under construction, its phase machine and the grammar of its
//! pieces.
use vstd::prelude::*;
use vstd::string::*;

use crate::bundle::{dynamic_usage, scalar_name, static_usage, Bundle, Memory};

verus! {

pub open spec fn digit_text(d: nat) -> Seq<char> {
    if d == 0 {
        "0"@
    } else if d == 1 {
        "1"@
    } else if d == 2 {
        "2"@
    } else if d == 3 {
        "3"@
    } else if d == 4 {
        "4"@
    } else if d == 5 {
        "5"@
    } else if d == 6 {
        "6"@
    } else if d == 7 {
        "7"@
    } else if d == 8 {
        "8"@
    } else {
        "9"@
    }
}

/// Decimal notation of `n`.
pub open spec fn decimal(n: nat) -> Seq<char>
    decreases n,
{
    if n < 10 {
        digit_text(n)
    } else {
        decimal(n / 10) + digit_text(n % 10)
    }
}

fn digit(d: u64) -> (r: &'static str)
    requires
        d < 10,
    ensures
        r@ == digit_text(d as nat),
{
    if d == 0 {
        "0"
    } else if d == 1 {
        "1"
    } else if d == 2 {
        "2"
    } else if d == 3 {
        "3"
    } else if d == 4 {
        "4"
    } else if d == 5 {
        "5"
    } else if d == 6 {
        "6"
    } else if d == 7 {
        "7"
    } else if d == 8 {
        "8"
    } else {
        "9"
    }
}

/// Appends the decimal notation of `n`.
pub fn push_decimal(s: &mut String, n: u64)
    ensures
        final(s)@ == old(s)@ + decimal(n as nat),
    decreases n,
{
    if n >= 10 {
        push_decimal(s, n / 10);
    }
    s.append(digit(n % 10));
    assert(final(s)@ =~= old(s)@ + decimal(n as nat));
}

/// How a handle is referenced at the current invocation's element.
pub open spec fn slot_ref(slot: u32) -> Seq<char> {
    "tsr"@ + decimal(slot as nat) + "[i]"@
}

/// How the current element of a uniform handle is read: four elements to a vector.
pub open spec fn packed_ref(slot: u32) -> Seq<char> {
    "tsr"@ + decimal(slot as nat) + "[i / 4u][i % 4u]"@
}

/// Vectors of four that hold `count` elements.
pub open spec fn packed_len(count: nat) -> nat {
    (count + 3) / 4
}

/// Address space, from the usage bits: uniform buffers, else read-write storage.
pub open spec fn space_text(b: Bundle) -> Seq<char> {
    if b.usage & 0x40u32 == 0x40u32 {
        "uniform"@
    } else {
        "storage, read_write"@
    }
}

/// Array type: a uniform buffer packs its elements four to a vector, as the uniform address
/// space asks a stride of sixteen bytes; otherwise sized for fixed-size memory,
/// runtime-sized for the rest.
pub open spec fn array_text(b: Bundle) -> Seq<char> {
    if b.usage & 0x40u32 == 0x40u32 {
        "array<vec4<"@ + scalar_name(b.props.alias) + ">, "@ + decimal(packed_len(b.props.count as nat)) + ">"@
    } else {
        match b.props.memory {
        Memory::Static => "array<"@ + scalar_name(b.props.alias) + ", "@ + decimal(b.props.count as nat) + ">"@,
            Memory::Dynamic => "array<"@ + scalar_name(b.props.alias) + ">"@,
        }
    }
}

/// The declaration of one handle.
pub open spec fn header_text(b: Bundle) -> Seq<char> {
    "@group(0) @binding("@ + decimal(b.props.binding as nat) + ") var<"@ + space_text(b) + "> tsr"@
        + decimal(b.props.binding as nat) + ": "@ + array_text(b) + ";\n"@
}

/// Whether the usage bits mark a uniform or a storage buffer.
pub open spec fn usage_ok(usage: u32) -> bool {
    usage & 0x40u32 == 0x40u32 || usage & 0x80u32 == 0x80u32
}

/// The handles that the binding table makes are uniform or storage buffers.
pub(crate) proof fn lemma_usage_ok()
    ensures
        usage_ok(static_usage()),
        usage_ok(dynamic_usage()),
{
    assert((0x40u32 | 0x8u32) & 0x40u32 == 0x40u32) by (bit_vector);
    assert((0x80u32 | 0x4u32 | 0x8u32) & 0x80u32 == 0x80u32) by (bit_vector);
}

/// What `insert_header` of `bundle` does to module `a`, leaving `b` and answering `r`.
pub open spec fn header_post(a: Module, b: Module, bundle: Bundle, r: Result<(), ModuleError>) -> bool {
    let slot = bundle.props.binding;
    if a.phase() != Phase::Headers {
        r == Err::<(), ModuleError>(ModuleError::Phase(a.phase())) && b.content() == a.content() && b.declared() == a.declared()
    } else if a.declared().contains(slot) {
        r is Ok && b.content() == a.content() && b.declared() == a.declared()
    } else if !usage_ok(bundle.usage) {
        r == Err::<(), ModuleError>(ModuleError::Usage(slot)) && b.content() == a.content() && b.declared() == a.declared()
    } else {
        &&& r is Ok
        &&& b.content() == a.content() + header_text(bundle)
        &&& b.declared() == a.declared().push(slot)
    }
}

/// Language extensions a module may enable.
#[derive(Clone, Copy, Debug, PartialEq, Eq, Structural)]
pub enum Directive {
    F16,
}

pub open spec fn extension_text(d: Directive) -> Seq<char> {
    match d {
        Directive::F16 => "f16"@,
    }
}

impl Directive {
    /// The extension's name in an `enable` directive.
    pub fn extension(self) -> (r: &'static str)
        ensures
            r@ == extension_text(self),
    {
        match self {
            Directive::F16 => "f16",
        }
    }
}

/// Phases of a module: declarations first, then the entry point's body, then sealed.
#[derive(Clone, Copy, Debug, PartialEq, Eq, Structural)]
pub enum Phase {
    Headers,
    Compute,
    Ready,
}

/// Why the module refused a step.
#[derive(Clone, Copy, Debug, PartialEq, Eq, Structural)]
pub enum ModuleError {
    /// The module's current phase does not allow the step.
    Phase(Phase),
    /// The handle at this slot is neither a uniform nor a storage buffer.
    Usage(u32),
}

/// Shader source under construction.
pub struct Module {
    content: String,
    phase: Phase,
    declared: Vec<u32>,
}

impl Module {
    pub closed spec fn content(&self) -> Seq<char> {
        self.content@
    }

    pub closed spec fn phase(&self) -> Phase {
        self.phase
    }

    /// The slots declared so far, in order.
    pub closed spec fn declared(&self) -> Seq<u32> {
        self.declared@
    }

    pub fn new() -> (r: Module)
        ensures
            r.content() == Seq::<char>::empty(),
            r.phase() == Phase::Headers,
            r.declared() == Seq::<u32>::empty(),
    {
        Module { content: String::new(), phase: Phase::Headers, declared: Vec::new() }
    }

    /// Whether the handle at `slot` is declared already.
    pub fn declares(&self, slot: u32) -> (r: bool)
        ensures
            r == self.declared().contains(slot),
    {
        let mut k: usize = 0;
        while k < self.declared.len()
            invariant
                k <= self.declared@.len(),
                forall|q: int| 0 <= q < k ==> self.declared@[q] != slot,
            decreases self.declared@.len() - k,
        {
            if self.declared[k] == slot {
                return true;
            }
            k = k + 1;
        }
        false
    }

    /// The source written so far.
    pub fn wrap(&self) -> (r: &str)
        ensures
            r@ == self.content(),
    {
        self.content.as_str()
    }

    pub fn current(&self) -> (r: Phase)
        ensures
            r == self.phase(),
    {
        self.phase
    }

    /// Appends `input` and a line break, unless the module is sealed.
    pub fn write(&mut self, input: &str) -> (r: Result<(), ModuleError>)
        ensures
            final(self).phase() == old(self).phase(),
            final(self).declared() == old(self).declared(),
            r is Ok <==> old(self).phase() != Phase::Ready,
            r is Ok ==> final(self).content() == old(self).content() + input@ + "\n"@,
            r is Err ==> final(self).content() == old(self).content() && r == Err::<(), ModuleError>(ModuleError::Phase(Phase::Ready)),
    {
        if self.phase == Phase::Ready {
            return Err(ModuleError::Phase(Phase::Ready));
        }
        self.content.append(input);
        self.content.append("\n");
        Ok(())
    }

    fn push(&mut self, piece: &str)
        ensures
            final(self).phase() == old(self).phase(),
            final(self).declared() == old(self).declared(),
            final(self).content() == old(self).content() + piece@,
    {
        self.content.append(piece);
    }

    fn push_decimal(&mut self, n: u64)
        ensures
            final(self).phase() == old(self).phase(),
            final(self).declared() == old(self).declared(),
            final(self).content() == old(self).content() + decimal(n as nat),
    {
        push_decimal(&mut self.content, n);
    }

    /// Enables a language extension; only among the declarations.
    pub fn insert_directive(&mut self, directive: Directive) -> (r: Result<(), ModuleError>)
        ensures
            final(self).phase() == old(self).phase(),
            final(self).declared() == old(self).declared(),
            r is Ok <==> old(self).phase() == Phase::Headers,
            r is Ok ==> final(self).content() == old(self).content() + "enable "@ + extension_text(directive) + ";\n"@,
            r is Err ==> final(self).content() == old(self).content() && r == Err::<(), ModuleError>(ModuleError::Phase(old(self).phase())),
    {
        if self.phase != Phase::Headers {
            return Err(ModuleError::Phase(self.phase));
        }
        self.push("enable ");
        self.push(directive.extension());
        self.push(";\n");
        assert(self.content@ =~= old(self).content() + "enable "@ + extension_text(directive) + ";\n"@);
        Ok(())
    }

    /// Declares the buffer of `bundle`, once: a handle whose slot is declared already leaves
    /// the module as it is. Only among the declarations; the address space comes from the
    /// usage bits, and a handle that is neither uniform nor storage is refused.
    pub fn insert_header(&mut self, bundle: &Bundle) -> (r: Result<(), ModuleError>)
        ensures
            final(self).phase() == old(self).phase(),
            header_post(*old(self), *final(self), *bundle, r),
    {
        if self.phase != Phase::Headers {
            return Err(ModuleError::Phase(self.phase));
        }
        if self.declares(bundle.props.binding) {
            return Ok(());
        }
        if !bundle.is_uniform() && !bundle.is_storage() {
            return Err(ModuleError::Usage(bundle.props.binding));
        }
        let slot = bundle.props.binding as u64;
        let ghost c0 = self.content@;
        let ghost d = decimal(slot as nat);
        self.push("@group(0) @binding(");
        self.push_decimal(slot);
        self.push(") var<");
        if bundle.is_uniform() {
            self.push("uniform");
        } else {
            self.push("storage, read_write");
        }
        assert(self.content@ =~= c0 + ("@group(0) @binding("@ + d + ") var<"@ + space_text(*bundle)));
        let ghost c1 = self.content@;
        self.push("> tsr");
        self.push_decimal(slot);
        self.push(": ");
        assert(self.content@ =~= c1 + ("> tsr"@ + d + ": "@));
        let ghost c2 = self.content@;
        if bundle.is_uniform() {
            let count = bundle.props.count as u64;
            let packed = count / 4 + if count % 4 == 0 { 0 } else { 1 };
            assert(packed as nat == packed_len(count as nat)) by (nonlinear_arith)
                requires
                    packed == count / 4 + if count % 4 == 0 { 0int } else { 1int },
            ;
            self.push("array<vec4<");
            self.push(bundle.typename());
            self.push(">, ");
            self.push_decimal(packed);
            self.push(">");
        } else {
            self.push("array<");
            self.push(bundle.typename());
            match bundle.props.memory {
                Memory::Static => {
                    self.push(", ");
                    self.push_decimal(bundle.props.count as u64);
                },
                Memory::Dynamic => {},
            }
            self.push(">");
        }
        assert(self.content@ =~= c2 + array_text(*bundle));
        self.push(";\n");
        assert(self.content@ =~= old(self).content() + header_text(*bundle));
        self.declared.push(bundle.props.binding);
        Ok(())
    }

    /// Appends a statement of the entry point's body. The first statement ends the
    /// declarations; a sealed module refuses it.
    pub fn insert_compute(&mut self, statement: &str) -> (r: Result<(), ModuleError>)
        ensures
            final(self).declared() == old(self).declared(),
            r is Ok <==> old(self).phase() != Phase::Ready,
            r is Ok ==> final(self).content() == old(self).content() + statement@ && final(self).phase() == Phase::Compute,
            r is Err ==> final(self).content() == old(self).content() && final(self).phase() == old(self).phase()
                && r == Err::<(), ModuleError>(ModuleError::Phase(Phase::Ready)),
    {
        if self.phase == Phase::Ready {
            return Err(ModuleError::Phase(Phase::Ready));
        }
        self.phase = Phase::Compute;
        self.push(statement);
        Ok(())
    }

    /// Seals the module: nothing is written after this.
    pub fn finish(&mut self) -> (r: Result<(), ModuleError>)
        ensures
            final(self).content() == old(self).content(),
            final(self).declared() == old(self).declared(),
            r is Ok <==> old(self).phase() == Phase::Compute,
            r is Ok ==> final(self).phase() == Phase::Ready,
            r is Err ==> final(self).phase() == old(self).phase() && r == Err::<(), ModuleError>(ModuleError::Phase(old(self).phase())),
    {
        if self.phase != Phase::Compute {
            return Err(ModuleError::Phase(self.phase));
        }
        self.phase = Phase::Ready;
        Ok(())
    }

    /// Takes the finished source out of the module.
    pub fn into_source(self) -> (r: String)
        ensures
            r@ == self.content(),
    {
        self.content
    }
}

proof fn lemma_declared_upto(ms: Seq<Module>, bs: Seq<Bundle>, rs: Seq<Result<(), ModuleError>>, k: int)
    requires
        ms.len() == bs.len() + 1,
        rs.len() == bs.len(),
        ms[0].declared() == Seq::<u32>::empty(),
        forall|i: int| 0 <= i < bs.len() ==> header_post(#[trigger] ms[i], ms[i + 1], bs[i], rs[i]) && rs[i] is Ok,
        0 <= k <= bs.len(),
    ensures
        ms[k].declared().no_duplicates(),
        forall|x: u32| ms[k].declared().contains(x) <==> exists|i: int| 0 <= i < k && (#[trigger] bs[i]).props.binding == x,
    decreases k,
{
    if k > 0 {
        let j = k - 1;
        lemma_declared_upto(ms, bs, rs, j);
        assert(header_post(ms[j], ms[j + 1], bs[j], rs[j]) && rs[j] is Ok);
        let d = ms[j].declared();
        let e = ms[k].declared();
        let slot = bs[j].props.binding;
        if !d.contains(slot) {
            assert(e == d.push(slot));
            assert forall|a: int, b: int| 0 <= a < b < e.len() implies e[a] != e[b] by {
                assert(e[a] == d[a]);
                if b < d.len() {
                    assert(e[b] == d[b]);
                } else {
                    assert(d.contains(e[a]));
                }
            }
            assert forall|x: u32| e.contains(x) <==> exists|i: int| 0 <= i < k && (#[trigger] bs[i]).props.binding == x by {
                if e.contains(x) {
                    let w = choose|w: int| 0 <= w < e.len() && e[w] == x;
                    if w < d.len() {
                        assert(d[w] == x);
                        assert(d.contains(x));
                    } else {
                        assert(bs[j].props.binding == x);
                    }
                }
                if exists|i: int| 0 <= i < k && (#[trigger] bs[i]).props.binding == x {
                    let i = choose|i: int| 0 <= i < k && (#[trigger] bs[i]).props.binding == x;
                    if i < j {
                        assert(d.contains(x));
                        let w = choose|w: int| 0 <= w < d.len() && d[w] == x;
                        assert(e[w] == x);
                    } else {
                        assert(e[e.len() - 1] == x);
                    }
                }
            }
        } else {
            assert(e == d);
            assert forall|x: u32| e.contains(x) <==> exists|i: int| 0 <= i < k && (#[trigger] bs[i]).props.binding == x by {
                if exists|i: int| 0 <= i < k && (#[trigger] bs[i]).props.binding == x {
                    let i = choose|i: int| 0 <= i < k && (#[trigger] bs[i]).props.binding == x;
                    if i == j {
                        assert(d.contains(x));
                    }
                }
            }
        }
    }
}

/// Declaring handles one after another, repeats included, declares each distinct slot
/// exactly once: the declared slots hold no repeat, and a slot is declared exactly when one of
/// the handles stands at it. A repeated handle leaves the text as it was.
pub proof fn lemma_declared_once(ms: Seq<Module>, bs: Seq<Bundle>, rs: Seq<Result<(), ModuleError>>)
    requires
        ms.len() == bs.len() + 1,
        rs.len() == bs.len(),
        ms[0].declared() == Seq::<u32>::empty(),
        forall|i: int| 0 <= i < bs.len() ==> header_post(#[trigger] ms[i], ms[i + 1], bs[i], rs[i]) && rs[i] is Ok,
    ensures
        ms[bs.len() as int].declared().no_duplicates(),
        forall|x: u32| ms[bs.len() as int].declared().contains(x) <==> exists|i: int| 0 <= i < bs.len() && (#[trigger] bs[i]).props.binding == x,
{
    lemma_declared_upto(ms, bs, rs, bs.len() as int);
}

} // verus!
