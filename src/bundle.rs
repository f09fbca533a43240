//! Resource handles: one GPU-resident buffer, its binding slot and how shaders declare it.
use vstd::prelude::*;

verus! {

/// Relies on `wgpu::BufferUsages::UNIFORM`: the bit `1 << 6`.
#[verifier::external_body]
fn uniform_usage() -> (r: u32)
    ensures
        r == 0x40,
{
    wgpu::BufferUsages::UNIFORM.bits()
}

/// Relies on `wgpu::BufferUsages::STORAGE`: the bit `1 << 7`.
#[verifier::external_body]
fn storage_usage() -> (r: u32)
    ensures
        r == 0x80,
{
    wgpu::BufferUsages::STORAGE.bits()
}

/// Relies on `wgpu::BufferUsages::COPY_SRC`: the bit `1 << 2`.
#[verifier::external_body]
fn copy_src_usage() -> (r: u32)
    ensures
        r == 0x4,
{
    wgpu::BufferUsages::COPY_SRC.bits()
}

/// Relies on `wgpu::BufferUsages::COPY_DST`: the bit `1 << 3`.
#[verifier::external_body]
fn copy_dst_usage() -> (r: u32)
    ensures
        r == 0x8,
{
    wgpu::BufferUsages::COPY_DST.bits()
}

/// Relies on `wgpu::BufferUsages::contains` (bitflags): every bit of `flag` is set in `usage`.
#[verifier::external_body]
fn usage_contains(usage: u32, flag: u32) -> (r: bool)
    ensures
        r == (usage & flag == flag),
{
    wgpu::BufferUsages::from_bits_retain(usage).contains(wgpu::BufferUsages::from_bits_retain(flag))
}

/// Usage bits of a buffer of fixed size read by shaders: uniform, written by copies.
pub open spec fn static_usage() -> u32 {
    0x40u32 | 0x8u32
}

/// Usage bits of a runtime-sized buffer: storage, copied in and out.
pub open spec fn dynamic_usage() -> u32 {
    0x80u32 | 0x4u32 | 0x8u32
}

/// Element type of a buffer, as the shading language names it.
#[derive(Clone, Copy, Debug, PartialEq, Eq, Structural)]
pub enum Scalar {
    U32,
    I32,
    F32,
}

pub open spec fn scalar_name(s: Scalar) -> Seq<char> {
    match s {
        Scalar::U32 => "u32"@,
        Scalar::I32 => "i32"@,
        Scalar::F32 => "f32"@,
    }
}

impl Scalar {
    /// The shading language's name of the element type.
    pub fn typename(&self) -> (r: &'static str)
        ensures
            r@ == scalar_name(*self),
    {
        match self {
            Scalar::U32 => "u32",
            Scalar::I32 => "i32",
            Scalar::F32 => "f32",
        }
    }
}

/// Memory classification: a fixed-size array known at bind time, or a runtime-sized one.
#[derive(Clone, Copy, Debug, PartialEq, Eq, Structural)]
pub enum Memory {
    Static,
    Dynamic,
}

pub open spec fn memory_usage(m: Memory) -> u32 {
    match m {
        Memory::Static => static_usage(),
        Memory::Dynamic => dynamic_usage(),
    }
}

/// What code generation needs of a handle: its element type, slot, element count and memory.
#[derive(Clone, Copy, Debug, PartialEq, Eq, Structural)]
pub struct Properties {
    pub alias: Scalar,
    pub binding: u32,
    pub count: usize,
    pub memory: Memory,
}

impl Properties {
    pub fn construct(alias: Scalar, binding: u32, count: usize, memory: Memory) -> (r: Self)
        ensures
            r == (Properties { alias, binding, count, memory }),
    {
        Properties { alias, binding, count, memory }
    }

    pub fn alias(&self) -> (r: Scalar)
        ensures
            r == self.alias,
    {
        self.alias
    }

    pub fn binding(&self) -> (r: u32)
        ensures
            r == self.binding,
    {
        self.binding
    }

    pub fn count(&self) -> (r: usize)
        ensures
            r == self.count,
    {
        self.count
    }
}

/// A resource handle: the properties of one buffer, its usage bits and whether the driver
/// has materialised it yet.
#[derive(Clone, Copy, Debug, PartialEq, Eq, Structural)]
pub struct Bundle {
    pub props: Properties,
    pub usage: u32,
    pub ready: bool,
}

impl Bundle {
    /// A handle of fixed size, not yet materialised.
    pub fn bind_st(alias: Scalar, count: usize, binding: u32) -> (r: Bundle)
        ensures
            r.props == (Properties { alias, binding, count, memory: Memory::Static }),
            r.usage == static_usage(),
            !r.ready,
    {
        let usage = uniform_usage() | copy_dst_usage();
        Bundle { props: Properties::construct(alias, binding, count, Memory::Static), usage, ready: false }
    }

    /// A runtime-sized handle, not yet materialised.
    pub fn bind_rt(alias: Scalar, count: usize, binding: u32) -> (r: Bundle)
        ensures
            r.props == (Properties { alias, binding, count, memory: Memory::Dynamic }),
            r.usage == dynamic_usage(),
            !r.ready,
    {
        let usage = storage_usage() | copy_src_usage() | copy_dst_usage();
        Bundle { props: Properties::construct(alias, binding, count, Memory::Dynamic), usage, ready: false }
    }

    /// True once the driver has attached the physical buffer.
    pub fn ready(&self) -> (r: bool)
        ensures
            r == self.ready,
    {
        self.ready
    }

    pub fn typename(&self) -> (r: &'static str)
        ensures
            r@ == scalar_name(self.props.alias),
    {
        self.props.alias.typename()
    }

    /// Whether the usage bits mark a uniform buffer.
    pub fn is_uniform(&self) -> (r: bool)
        ensures
            r == (self.usage & 0x40u32 == 0x40u32),
    {
        usage_contains(self.usage, uniform_usage())
    }

    /// Whether the usage bits mark a storage buffer.
    pub fn is_storage(&self) -> (r: bool)
        ensures
            r == (self.usage & 0x80u32 == 0x80u32),
    {
        usage_contains(self.usage, storage_usage())
    }
}

} // verus!
