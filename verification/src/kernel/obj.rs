//! Kernel objects and capabilities.
//!
//! A capability is an unforgeable reference to a kernel object plus a rights
//! mask. User tasks never see objects, only slot indices into their own
//! `CapTable`, checked on every system call. This is the whole access-control
//! model: no UIDs, no ambient authority. Capabilities move between tasks only
//! by being sent over an endpoint, and only if the sender holds `GRANT`.
use vstd::prelude::*;

use crate::rt::abi::RIGHT_GRANT;

verus! {

/// What a capability allows, one bit per right.
#[derive(Clone, Copy, Debug, PartialEq, Eq, Structural)]
pub struct Rights(pub u32);

impl Rights {
    /// Whether every right in `other` is there.
    pub open spec fn has(self, other: Rights) -> bool {
        self.0 & other.0 == other.0
    }

    pub fn contains(self, other: Rights) -> (r: bool)
        ensures
            r == self.has(other),
    {
        self.0 & other.0 == other.0
    }

    pub fn intersect(self, other: Rights) -> (r: Rights)
        ensures
            r == Rights(self.0 & other.0),
    {
        Rights(self.0 & other.0)
    }

    pub fn union(self, other: Rights) -> (r: Rights)
        ensures
            r == Rights(self.0 | other.0),
    {
        Rights(self.0 | other.0)
    }
}

/// Whether bit `i` is among the rights.
pub open spec fn right(r: Rights, i: u32) -> bool {
    (r.0 >> i) & 1 == 1
}

/// Containment, intersection and union are those of the sets of rights.
pub proof fn lemma_rights_are_sets(a: Rights, b: Rights, i: u32)
    requires
        i < 32,
    ensures
        right(Rights(a.0 & b.0), i) == (right(a, i) && right(b, i)),
        right(Rights(a.0 | b.0), i) == (right(a, i) || right(b, i)),
        a.has(b) && right(b, i) ==> right(a, i),
{
    let x = a.0;
    let y = b.0;
    assert(((x & y) >> i) & 1 == 1 <==> ((x >> i) & 1 == 1 && (y >> i) & 1 == 1)) by (bit_vector)
        requires
            i < 32,
    ;
    assert(((x | y) >> i) & 1 == 1 <==> ((x >> i) & 1 == 1 || (y >> i) & 1 == 1)) by (bit_vector)
        requires
            i < 32,
    ;
}

/// Masking rights never adds one, and keeps every right of the mask that was
/// there.
pub proof fn lemma_mask(a: Rights, mask: Rights, need: Rights)
    ensures
        a.has(Rights(a.0 & mask.0)),
        mask.has(Rights(a.0 & mask.0)),
        Rights(a.0 & mask.0).has(need) <==> a.has(need) && mask.has(need),
{
    let x = a.0;
    let y = mask.0;
    let n = need.0;
    assert(x & (x & y) == (x & y) && y & (x & y) == (x & y) && (((x & y) & n == n) <==> (x & n == n && y
        & n == n))) by (bit_vector);
}

/// The object a capability refers to, by the number under which the kernel
/// keeps it.
#[derive(Clone, Copy, Debug, PartialEq, Eq, Structural)]
pub enum Object {
    Endpoint(u32),
    Memory(u32),
    /// A PCI function.
    Device(u32),
    /// An interrupt vector.
    Irq(u32),
    /// A range of I/O ports.
    Port { base: u16, len: u16 },
    /// The authority to start services.
    Control,
}

#[derive(Clone, Copy, Debug, PartialEq, Eq, Structural)]
pub struct Capability {
    pub object: Object,
    pub rights: Rights,
}

impl Capability {
    /// The endpoint the capability is for, if it is for one.
    pub fn endpoint(&self) -> (r: Option<u32>)
        ensures
            r == match self.object {
                Object::Endpoint(e) => Some(e),
                _ => None,
            },
    {
        match self.object {
            Object::Endpoint(e) => Some(e),
            _ => None,
        }
    }

    /// The memory object the capability is for, if it is for one.
    pub fn memory(&self) -> (r: Option<u32>)
        ensures
            r == match self.object {
                Object::Memory(m) => Some(m),
                _ => None,
            },
    {
        match self.object {
            Object::Memory(m) => Some(m),
            _ => None,
        }
    }
}

pub type CapSlot = u32;

/// Slots a table may have.
pub const MAX_SLOTS: usize = 256;

/// The capabilities of one task.
pub struct CapTable {
    pub slots: Vec<Option<Capability>>,
}

/// First free slot at or after `i`, or the length when all are taken.
pub open spec fn free_slot(s: Seq<Option<Capability>>, i: int) -> int
    decreases s.len() - i,
{
    if i >= s.len() {
        s.len() as int
    } else if s[i] is None {
        i
    } else {
        free_slot(s, i + 1)
    }
}

pub proof fn lemma_free_slot(s: Seq<Option<Capability>>, i: int)
    requires
        0 <= i <= s.len(),
    ensures
        i <= free_slot(s, i) <= s.len(),
        free_slot(s, i) < s.len() ==> s[free_slot(s, i)] is None,
        forall|k: int| i <= k < free_slot(s, i) ==> (#[trigger] s[k]) is Some,
    decreases s.len() - i,
{
    if i < s.len() && s[i] is Some {
        lemma_free_slot(s, i + 1);
    }
}

/// Whether a table can take another capability.
pub open spec fn has_room(s: Seq<Option<Capability>>) -> bool {
    free_slot(s, 0) < s.len() || s.len() < MAX_SLOTS
}

/// The table with `cap` in its first free slot.
pub open spec fn inserted(s: Seq<Option<Capability>>, cap: Capability) -> Seq<Option<Capability>> {
    let i = free_slot(s, 0);
    if i < s.len() {
        s.update(i, Some(cap))
    } else {
        s.push(Some(cap))
    }
}

/// What a slot holds.
pub open spec fn in_slot(s: Seq<Option<Capability>>, slot: CapSlot) -> Option<Capability> {
    if slot < s.len() {
        s[slot as int]
    } else {
        None
    }
}

/// What a slot holds, if it carries `need`.
pub open spec fn usable_slot(s: Seq<Option<Capability>>, slot: CapSlot, need: Rights) -> Option<Capability> {
    match in_slot(s, slot) {
        Some(c) => if c.rights.has(need) {
            Some(c)
        } else {
            None
        },
        None => None,
    }
}

/// The copy of a slot that may be handed on: rights masked, and only with
/// `GRANT`.
pub open spec fn derived(s: Seq<Option<Capability>>, slot: CapSlot, mask: Rights) -> Option<Capability> {
    match usable_slot(s, slot, Rights(RIGHT_GRANT)) {
        Some(c) => Some(Capability { object: c.object, rights: Rights(c.rights.0 & mask.0) }),
        None => None,
    }
}

impl View for CapTable {
    type V = Seq<Option<Capability>>;

    open spec fn view(&self) -> Seq<Option<Capability>> {
        self.slots@
    }
}

impl CapTable {
    pub open spec fn wf(&self) -> bool {
        self@.len() <= MAX_SLOTS
    }

    pub fn new() -> (r: Self)
        ensures
            r.wf(),
            r@ == Seq::<Option<Capability>>::empty(),
    {
        CapTable { slots: Vec::new() }
    }

    /// Put a capability into the first free slot. Fails when the table is full.
    pub fn insert(&mut self, cap: Capability) -> (r: Option<CapSlot>)
        requires
            old(self).wf(),
        ensures
            final(self).wf(),
            r is Some <==> has_room(old(self)@),
            r is None ==> final(self)@ == old(self)@,
            r matches Some(i) ==> i == free_slot(old(self)@, 0) && i < MAX_SLOTS && final(self)@ == inserted(
                old(self)@,
                cap,
            ),
    {
        let mut i: usize = 0;
        while i < self.slots.len() && self.slots[i].is_some()
            invariant
                i <= self@.len(),
                free_slot(self@, 0) == free_slot(self@, i as int),
            decreases self@.len() - i,
        {
            i = i + 1;
        }
        if i < self.slots.len() {
            self.slots[i] = Some(cap);
            return Some(i as u32);
        }
        if self.slots.len() >= MAX_SLOTS {
            return None;
        }
        self.slots.push(Some(cap));
        Some(i as u32)
    }

    pub fn get(&self, slot: CapSlot) -> (r: Option<Capability>)
        ensures
            r == in_slot(self@, slot),
    {
        if (slot as usize) < self.slots.len() {
            self.slots[slot as usize]
        } else {
            None
        }
    }

    /// Look up a slot and check that it carries `rights`.
    pub fn lookup(&self, slot: CapSlot, rights: Rights) -> (r: Option<Capability>)
        ensures
            r == usable_slot(self@, slot, rights),
    {
        match self.get(slot) {
            None => None,
            Some(c) => if c.rights.contains(rights) {
                Some(c)
            } else {
                None
            },
        }
    }

    /// Copy a capability for another table with (possibly reduced) rights.
    /// Requires `GRANT`; the copy never carries more than its source.
    pub fn derive(&self, slot: CapSlot, mask: Rights) -> (r: Option<Capability>)
        ensures
            r == derived(self@, slot, mask),
    {
        match self.lookup(slot, Rights(RIGHT_GRANT)) {
            None => None,
            Some(c) => Some(Capability { object: c.object, rights: c.rights.intersect(mask) }),
        }
    }

    /// Empty a slot; returns what it held.
    pub fn remove(&mut self, slot: CapSlot) -> (r: Option<Capability>)
        requires
            old(self).wf(),
        ensures
            final(self).wf(),
            r == in_slot(old(self)@, slot),
            final(self)@ == if slot < old(self)@.len() {
                old(self)@.update(slot as int, None)
            } else {
                old(self)@
            },
    {
        if (slot as usize) < self.slots.len() {
            let c: Option<Capability> = self.slots[slot as usize];
            self.slots[slot as usize] = None;
            c
        } else {
            None
        }
    }
}

/// A capability that was put into a table is found under the slot it got, and
/// every other slot is as it was.
pub proof fn lemma_insert_get(s: Seq<Option<Capability>>, cap: Capability, other: CapSlot)
    requires
        has_room(s),
        s.len() <= MAX_SLOTS,
    ensures
        in_slot(inserted(s, cap), free_slot(s, 0) as u32) == Some(cap),
        in_slot(s, free_slot(s, 0) as u32) is None,
        other != free_slot(s, 0) ==> in_slot(inserted(s, cap), other) == in_slot(s, other),
{
    lemma_free_slot(s, 0);
}

/// Authority is never widened: a capability that is handed on refers to the same
/// object with no right that its source or the mask lacks, and only one with
/// `GRANT` may be handed on at all.
pub proof fn lemma_derive_narrows(s: Seq<Option<Capability>>, slot: CapSlot, mask: Rights)
    requires
        derived(s, slot, mask) is Some,
    ensures
        in_slot(s, slot) is Some,
        in_slot(s, slot)->0.rights.has(Rights(RIGHT_GRANT)),
        derived(s, slot, mask)->0.object == in_slot(s, slot)->0.object,
        in_slot(s, slot)->0.rights.has(derived(s, slot, mask)->0.rights),
        mask.has(derived(s, slot, mask)->0.rights),
{
    let c = in_slot(s, slot)->0;
    lemma_mask(c.rights, mask, Rights(0));
}

/// A lookup finds what the slot holds if and only if it lacks none of the rights
/// that are asked for.
pub proof fn lemma_lookup(s: Seq<Option<Capability>>, slot: CapSlot, need: Rights, i: u32)
    requires
        i < 32,
    ensures
        usable_slot(s, slot, need) is Some ==> slot < s.len() && s[slot as int] == usable_slot(s, slot, need),
        usable_slot(s, slot, need) is Some && right(need, i) ==> right(s[slot as int]->0.rights, i),
        slot < s.len() && s[slot as int] is Some && !s[slot as int]->0.rights.0 & need.0 == 0 ==> usable_slot(
            s,
            slot,
            need,
        ) is Some,
{
    if usable_slot(s, slot, need) is Some {
        lemma_rights_are_sets(s[slot as int]->0.rights, need, i);
    }
    if slot < s.len() && s[slot as int] is Some {
        let a = s[slot as int]->0.rights.0;
        let b = need.0;
        assert(!a & b == 0 ==> a & b == b) by (bit_vector);
    }
}

/// A copy for another table has exactly the rights that both its source and the
/// mask have. It is made whenever the source has `GRANT`.
pub proof fn lemma_derive_exact(s: Seq<Option<Capability>>, slot: CapSlot, mask: Rights, i: u32)
    requires
        i < 32,
        slot < s.len(),
        s[slot as int] is Some,
    ensures
        derived(s, slot, mask) is Some <==> right(s[slot as int]->0.rights, 2),
        derived(s, slot, mask) matches Some(c) ==> {
            &&& c.object == s[slot as int]->0.object
            &&& right(c.rights, i) <==> right(s[slot as int]->0.rights, i) && right(mask, i)
        },
{
    let a = s[slot as int]->0.rights;
    lemma_rights_are_sets(a, mask, i);
    let w = a.0;
    assert(w & 4 == 4 <==> (w >> 2) & 1 == 1) by (bit_vector);
}

/// A table refuses a capability only when it has 256 slots and all are taken.
/// Otherwise the capability goes into a slot that was empty, or a new one at the
/// end, and no slot before it was empty.
pub proof fn lemma_insert_first(s: Seq<Option<Capability>>, cap: Capability, k: int)
    requires
        s.len() <= 256,
        0 <= k < s.len(),
    ensures
        !has_room(s) ==> s.len() == 256 && s[k] is Some,
        has_room(s) && s[k] is None ==> inserted(s, cap).len() == s.len(),
        has_room(s) && s[k] is None && inserted(s, cap)[k] is None ==> exists|i: int|
            0 <= i < k && s[i] is None && #[trigger] inserted(s, cap)[i] == Some(cap),
        has_room(s) && inserted(s, cap).len() > s.len() ==> s[k] is Some && inserted(s, cap).last() == Some(cap),
{
    lemma_free_slot(s, 0);
    let i = free_slot(s, 0);
    if i < s.len() {
        assert(inserted(s, cap)[i] == Some(cap));
    }
}

} // verus!
