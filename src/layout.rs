//! The binding table: which handle stands at which binding slot, and the slot allocator.
use std::collections::HashMap;
use vstd::prelude::*;

use crate::bundle::{Bundle, Memory, Properties, Scalar};
use crate::module::{lemma_usage_ok, usage_ok};

verus! {

broadcast use vstd::std_specs::hash::group_hash_axioms;

/// One past the largest binding slot.
pub open spec fn slot_limit() -> nat {
    0x1_0000_0000
}

/// Why the binding table refused a request.
#[derive(Clone, Copy, Debug, PartialEq, Eq, Structural)]
pub enum LayoutError {
    /// Every binding slot has been handed out.
    Exhausted,
    /// The slot already holds a handle.
    Occupied(u32),
    /// No handle stands at the slot.
    Unbound(u32),
    /// The handle's own slot differs from the slot it was to be registered at.
    Mismatch(u32),
    /// The handle is neither a uniform nor a storage buffer.
    Usage(u32),
}

/// Mapping from binding slot to resource handle, with the allocator of fresh slots.
pub struct Layout {
    mapping: HashMap<u32, Bundle>,
    next: u64,
}

/// `a` becomes `b` by binding a fresh handle at `slot`.
pub open spec fn bind_step(a: Layout, b: Layout, slot: u32) -> bool {
    &&& slot == a.next()
    &&& !a.mapping().contains_key(slot)
    &&& b.next() == a.next() + 1
    &&& b.mapping().contains_key(slot)
    &&& b.mapping() == a.mapping().insert(slot, b.mapping()[slot])
}

/// What `insert` of `bundle` at `slot` does to `a`, leaving `b` and answering `r`.
pub open spec fn insert_post(a: Layout, b: Layout, bundle: Bundle, slot: u32, r: Result<Bundle, LayoutError>) -> bool {
    if a.mapping().contains_key(slot) {
        r == Err::<Bundle, LayoutError>(LayoutError::Occupied(slot)) && b == a
    } else if bundle.props.binding != slot {
        r == Err::<Bundle, LayoutError>(LayoutError::Mismatch(slot)) && b == a
    } else if !usage_ok(bundle.usage) {
        r == Err::<Bundle, LayoutError>(LayoutError::Usage(slot)) && b == a
    } else {
        &&& r == Ok::<Bundle, LayoutError>(bundle)
        &&& b.mapping() == a.mapping().insert(slot, bundle)
        &&& b.next() == if (slot as nat) < a.next() { a.next() } else { slot as nat + 1 }
    }
}

impl Layout {
    /// The handles, by slot.
    pub closed spec fn mapping(&self) -> Map<u32, Bundle> {
        self.mapping@
    }

    /// The slot the next `bind` hands out.
    pub closed spec fn next(&self) -> nat {
        self.next as nat
    }

    /// Every handle stands at its own slot, below the next fresh slot, and is a uniform or a
    /// storage buffer.
    pub open spec fn wf(&self) -> bool {
        &&& self.next() <= slot_limit()
        &&& forall|s: u32| #[trigger] self.mapping().contains_key(s) ==> {
            &&& (s as nat) < self.next()
            &&& self.mapping()[s].props.binding == s
            &&& usage_ok(self.mapping()[s].usage)
        }
    }

    /// An empty table whose first fresh slot is zero.
    pub fn arrange() -> (r: Layout)
        ensures
            r.wf(),
            r.mapping() == Map::<u32, Bundle>::empty(),
            r.next() == 0,
    {
        Layout { mapping: HashMap::new(), next: 0 }
    }

    /// Allocates the next slot and registers a handle there that is not yet materialised.
    pub fn bind(&mut self, alias: Scalar, count: usize, memory: Memory) -> (r: Result<u32, LayoutError>)
        requires
            old(self).wf(),
        ensures
            final(self).wf(),
            final(self).next() >= old(self).next(),
            old(self).next() < slot_limit() <==> r is Ok,
            r is Err ==> r == Err::<u32, LayoutError>(LayoutError::Exhausted) && *final(self) == *old(self),
            r matches Ok(slot) ==> {
                &&& bind_step(*old(self), *final(self), slot)
                &&& final(self).mapping()[slot].props == (Properties { alias, binding: slot, count, memory })
                &&& !final(self).mapping()[slot].ready
            },
    {
        if self.next >= 0x1_0000_0000u64 {
            return Err(LayoutError::Exhausted);
        }
        let slot = self.next as u32;
        let bundle = match memory {
            Memory::Static => Bundle::bind_st(alias, count, slot),
            Memory::Dynamic => Bundle::bind_rt(alias, count, slot),
        };
        proof {
            lemma_usage_ok();
        }
        self.mapping.insert(slot, bundle);
        self.next = self.next + 1;
        Ok(slot)
    }

    /// Registers `bundle`, as given, at `slot`. A slot that already holds a handle is never
    /// overwritten; a handle whose own slot is another, or that is neither a uniform nor a
    /// storage buffer, is refused.
    pub fn insert(&mut self, bundle: Bundle, slot: u32) -> (r: Result<Bundle, LayoutError>)
        requires
            old(self).wf(),
        ensures
            final(self).wf(),
            final(self).next() >= old(self).next(),
            insert_post(*old(self), *final(self), bundle, slot, r),
    {
        if self.mapping.contains_key(&slot) {
            return Err(LayoutError::Occupied(slot));
        }
        if bundle.props.binding != slot {
            return Err(LayoutError::Mismatch(slot));
        }
        if !bundle.is_uniform() && !bundle.is_storage() {
            return Err(LayoutError::Usage(slot));
        }
        self.mapping.insert(slot, bundle);
        if slot as u64 >= self.next {
            self.next = slot as u64 + 1;
        }
        Ok(bundle)
    }

    /// Reserved for freeing the slots of dead handles. Slots are never reclaimed: this
    /// leaves the table as it is.
    pub fn recycle(&self) {
    }

    /// The handle at `slot`, if any.
    pub fn get(&self, slot: u32) -> (r: Option<Bundle>)
        ensures
            r == if self.mapping().contains_key(slot) {
                Some(self.mapping()[slot])
            } else {
                None::<Bundle>
            },
    {
        match self.mapping.get(&slot) {
            Some(b) => Some(*b),
            None => None,
        }
    }

    /// Marks the handle at `slot` as materialised: the driver attached its buffer.
    pub fn attach(&mut self, slot: u32) -> (r: Result<(), LayoutError>)
        requires
            old(self).wf(),
        ensures
            final(self).wf(),
            final(self).next() == old(self).next(),
            r is Ok <==> old(self).mapping().contains_key(slot),
            r is Err ==> r == Err::<(), LayoutError>(LayoutError::Unbound(slot)) && *final(self) == *old(self),
            r is Ok ==> final(self).mapping() == old(self).mapping().insert(
                slot,
                Bundle { ready: true, ..old(self).mapping()[slot] },
            ),
    {
        match self.mapping.get(&slot) {
            Some(b) => {
                let updated = Bundle { ready: true, ..*b };
                self.mapping.insert(slot, updated);
                Ok(())
            },
            None => Err(LayoutError::Unbound(slot)),
        }
    }
}

/// Handles bound one after another receive strictly increasing, hence distinct, slots,
/// whatever else is done to the table between the binds (no operation lowers the next
/// fresh slot).
pub proof fn lemma_bound_slots_increase(before: Seq<Layout>, after: Seq<Layout>, slots: Seq<u32>)
    requires
        before.len() == slots.len(),
        after.len() == slots.len(),
        forall|k: int| 0 <= k < slots.len() ==> bind_step(#[trigger] before[k], after[k], slots[k]),
        forall|k: int| 0 <= k < slots.len() - 1 ==> after[k].next() <= #[trigger] before[k + 1].next(),
    ensures
        forall|i: int, j: int| 0 <= i < j < slots.len() ==> slots[i] < slots[j],
{
    assert forall|i: int, j: int| 0 <= i < j < slots.len() implies slots[i] < slots[j] by {
        lemma_bound_slots_step(before, after, slots, i, j);
    }
}

proof fn lemma_bound_slots_step(before: Seq<Layout>, after: Seq<Layout>, slots: Seq<u32>, i: int, j: int)
    requires
        before.len() == slots.len(),
        after.len() == slots.len(),
        forall|k: int| 0 <= k < slots.len() ==> bind_step(#[trigger] before[k], after[k], slots[k]),
        forall|k: int| 0 <= k < slots.len() - 1 ==> after[k].next() <= #[trigger] before[k + 1].next(),
        0 <= i < j < slots.len(),
    ensures
        slots[i] < slots[j],
    decreases j - i,
{
    assert(bind_step(before[j - 1], after[j - 1], slots[j - 1]));
    assert(bind_step(before[j], after[j], slots[j]));
    let k = j - 1;
    assert(after[k].next() <= before[k + 1].next());
    if i < j - 1 {
        lemma_bound_slots_step(before, after, slots, i, j - 1);
    }
}

/// Once an `insert` at a slot has succeeded, a second `insert` there fails with `Occupied`
/// and the first handle is kept.
pub proof fn lemma_insert_twice(
    l0: Layout,
    l1: Layout,
    l2: Layout,
    first: Bundle,
    second: Bundle,
    slot: u32,
    r1: Result<Bundle, LayoutError>,
    r2: Result<Bundle, LayoutError>,
)
    requires
        insert_post(l0, l1, first, slot, r1),
        r1 is Ok,
        insert_post(l1, l2, second, slot, r2),
    ensures
        r2 == Err::<Bundle, LayoutError>(LayoutError::Occupied(slot)),
        l2 == l1,
        l2.mapping()[slot] == first,
{
}

} // verus!
