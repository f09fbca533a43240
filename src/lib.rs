//! A vendor-neutral GPU compute toolkit: tensor arithmetic is recorded lazily into an
//! operation graph over bound GPU buffers, and each resolution compiles the graph into one
//! generated WGSL compute program with a single dispatch.
use vstd::prelude::*;
use vstd::string::*;

pub mod bundle;
pub mod layout;
pub mod node;
pub mod history;
pub mod tree;
pub mod module;
pub mod builder;
pub mod tensor;
pub mod instance;

use crate::instance::{Instance, InstanceOpts};
use crate::node::Node;

verus! {

/// Opens a session with the default options.
pub fn init() -> (r: Instance)
    ensures
        r.wf(),
        r.table().mapping() == Map::<u32, crate::bundle::Bundle>::empty(),
        r.table().next() == 0,
        r.arena().nodes() == Seq::<Node>::empty(),
        r.options() == (InstanceOpts { workgroup: 64 }),
{
    Instance::init()
}

/// Labels of the GPU resources that the toolkit owns.
pub struct Owned;

impl Owned {
    /// The label of an owned resource of the given kind.
    pub fn from(resource: &str) -> (r: String)
        ensures
            r@ == "zelkova owned "@ + resource@ + "."@,
    {
        let mut label = String::from_str("zelkova owned ");
        label.append(resource);
        label.append(".");
        label
    }
}

} // verus!
