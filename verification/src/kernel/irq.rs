//! Interrupt objects: a device interrupt becomes a message on an endpoint that a
//! ring-3 driver chose. The kernel only routes and acknowledges; what the
//! interrupt means is the driver's business.
use vstd::prelude::*;

use crate::arch::apic::SPURIOUS_VECTOR;
use crate::kernel::count;
use crate::kernel::message::Message;
use crate::kernel::obj;
use crate::kernel::obj::{Capability, Object, Rights};
use crate::kernel::state;
use crate::kernel::state::Kernel;
use crate::kernel::syscall::EINVAL;
use crate::kernel::task::TaskId;
use crate::rt::abi::NO_CAP;

verus! {

/// The scheduler timer's vector.
pub const IRQ_TIMER: u8 = 32;

/// ISA lines 0 to 15 go to the vectors from here on.
pub const ISA_VECTOR_BASE: u8 = 34;

/// MSI and MSI-X vectors are handed out from here up to the last.
pub const MSI_VECTOR_FIRST: u8 = 64;

pub const MSI_VECTOR_LAST: u8 = 127;

#[derive(Clone, Copy, Debug, PartialEq, Eq, Structural)]
pub struct IrqObject {
    pub vector: u8,
    /// I/O APIC input for level-triggered lines (masked until acknowledged).
    pub gsi: Option<u32>,
    pub level: bool,
    pub endpoint: Option<u32>,
    pub count: u64,
    pub dropped: u64,
}

impl IrqObject {
    /// A vector that is nobody's line and bound to nothing yet.
    pub open spec fn edge(vector: u8) -> IrqObject {
        IrqObject { vector, gsi: None, level: false, endpoint: None, count: 0, dropped: 0 }
    }
}

/// The interrupt objects by vector.
pub struct IrqTable {
    pub slots: Vec<Option<IrqObject>>,
    pub next_msi: u8,
}

impl IrqTable {
    pub open spec fn wf(&self) -> bool {
        &&& self.slots@.len() == 256
        &&& MSI_VECTOR_FIRST <= self.next_msi <= MSI_VECTOR_LAST + 1
        &&& forall|i: int|
            0 <= i < 256 ==> ((#[trigger] self.slots@[i]) matches Some(o) ==> o.vector == i)
    }

    /// One more interrupt can be counted.
    pub open spec fn can_count(&self, vector: u8) -> bool {
        self.at(vector) matches Some(o) ==> o.count < u64::MAX && o.dropped < u64::MAX
    }

    /// The endpoint that a vector is bound to is one of the first `n`.
    pub open spec fn bound_below(&self, vector: u8, n: int) -> bool {
        self.at(vector) matches Some(o) ==> (o.endpoint matches Some(e) ==> e < n)
    }

    /// The object at a vector.
    pub open spec fn at(&self, vector: u8) -> Option<IrqObject> {
        self.slots@[vector as int]
    }

    pub fn new() -> (r: Self)
        ensures
            r.wf(),
            r.next_msi == MSI_VECTOR_FIRST,
            forall|v: u8| #[trigger] r.at(v) is None,
    {
        let mut slots: Vec<Option<IrqObject>> = Vec::new();
        let mut i: usize = 0;
        while i < 256
            invariant
                i <= 256,
                slots@.len() == i,
                forall|k: int| 0 <= k < i ==> #[trigger] slots@[k] is None,
            decreases 256 - i,
        {
            slots.push(None);
            i = i + 1;
        }
        IrqTable { slots, next_msi: MSI_VECTOR_FIRST }
    }

    /// Interrupt object for a legacy ISA line, which goes to input `gsi`. A line
    /// that has one keeps it.
    pub fn isa(&mut self, irq: u8, gsi: u32, level: bool) -> (vector: u8)
        requires
            old(self).wf(),
            irq < 16,
        ensures
            final(self).wf(),
            vector == ISA_VECTOR_BASE + irq,
            final(self).next_msi == old(self).next_msi,
            final(self).slots@ == match old(self).at(vector) {
                Some(_) => old(self).slots@,
                None => old(self).slots@.update(
                    vector as int,
                    Some(
                        IrqObject {
                            vector,
                            gsi: Some(gsi),
                            level,
                            endpoint: None,
                            count: 0,
                            dropped: 0,
                        },
                    ),
                ),
            },
    {
        let vector: u8 = ISA_VECTOR_BASE + irq;
        if self.slots[vector as usize].is_none() {
            self.slots[vector as usize] = Some(
                IrqObject { vector, gsi: Some(gsi), level, endpoint: None, count: 0, dropped: 0 },
            );
        }
        vector
    }

    /// The next MSI vector, if there is one left.
    pub fn reserve_msi(&mut self) -> (r: Option<u8>)
        requires
            old(self).wf(),
        ensures
            final(self).wf(),
            final(self).slots@ == old(self).slots@,
            old(self).next_msi > MSI_VECTOR_LAST ==> r is None && final(self).next_msi == old(
                self,
            ).next_msi,
            old(self).next_msi <= MSI_VECTOR_LAST ==> r == Some(old(self).next_msi)
                && final(self).next_msi == old(self).next_msi + 1,
    {
        if self.next_msi > MSI_VECTOR_LAST {
            return None;
        }
        let v: u8 = self.next_msi;
        self.next_msi = v + 1;
        Some(v)
    }

    /// Interrupt object for a PCI function whose MSI-X entry sends `vector`.
    pub fn msix(&mut self, vector: u8)
        requires
            old(self).wf(),
        ensures
            final(self).wf(),
            final(self).next_msi == old(self).next_msi,
            final(self).slots@ == old(self).slots@.update(vector as int, Some(IrqObject::edge(vector))),
    {
        self.slots[vector as usize] = Some(
            IrqObject { vector, gsi: None, level: false, endpoint: None, count: 0, dropped: 0 },
        );
    }

    /// Send an object's events to an endpoint from now on.
    pub fn bind(&mut self, vector: u8, ep: u32)
        requires
            old(self).wf(),
        ensures
            final(self).wf(),
            final(self).next_msi == old(self).next_msi,
            final(self).slots@ == match old(self).at(vector) {
                Some(o) => old(self).slots@.update(
                    vector as int,
                    Some(IrqObject { endpoint: Some(ep), ..o }),
                ),
                None => old(self).slots@,
            },
    {
        if let Some(o) = &mut self.slots[vector as usize] {
            o.endpoint = Some(ep);
        }
    }

    /// The input to unmask after the driver serviced a level-triggered line.
    pub fn ack(&self, vector: u8) -> (r: Option<u32>)
        requires
            self.wf(),
        ensures
            r == match self.at(vector) {
                Some(o) => if o.level {
                    o.gsi
                } else {
                    None
                },
                None => None,
            },
    {
        match self.slots[vector as usize] {
            Some(o) => if o.level {
                o.gsi
            } else {
                None
            },
            None => None,
        }
    }
}

/// The message an interrupt becomes: its vector and how often it came.
pub open spec fn event(vector: u8, n: u64) -> Seq<u64> {
    seq![vector as u64, n, 0, NO_CAP]
}

/// How far the handling of an interrupt is.
#[derive(Clone, Copy, Debug, PartialEq, Eq, Structural)]
pub enum Stage {
    Raised,
    /// The line is masked.
    Masked,
    /// The local APIC was told.
    Acknowledged,
    /// The bound endpoint was told.
    Handled,
}

/// An interrupt being handled.
#[derive(Clone, Copy, Debug, PartialEq, Eq, Structural)]
pub struct Interrupt {
    pub vector: u8,
    pub stage: Stage,
}

/// What the trap path does at the controllers.
#[derive(Clone, Copy, Debug, PartialEq, Eq, Structural)]
pub enum Step {
    /// Mask this input of the I/O APIC, until the driver acknowledges.
    Mask(u32),
    /// Signal the end of the interrupt to the local APIC.
    Acknowledge,
    /// Return from the interrupt.
    Return,
}

/// The input that is masked while an interrupt is handled: that of a
/// level-triggered line.
pub open spec fn line_of(o: Option<IrqObject>) -> Option<u32> {
    match o {
        Some(o) => if o.level {
            o.gsi
        } else {
            None
        },
        None => None,
    }
}

/// The handling of an interrupt goes on: mask the line, acknowledge, forward,
/// return.
pub open spec fn next_step(i: Interrupt, o: Option<IrqObject>) -> (Interrupt, Step) {
    match i.stage {
        Stage::Raised => match line_of(o) {
            Some(gsi) => (Interrupt { stage: Stage::Masked, ..i }, Step::Mask(gsi)),
            None => (Interrupt { stage: Stage::Acknowledged, ..i }, Step::Acknowledge),
        },
        Stage::Masked => (Interrupt { stage: Stage::Acknowledged, ..i }, Step::Acknowledge),
        Stage::Acknowledged | Stage::Handled => (Interrupt { stage: Stage::Handled, ..i }, Step::Return),
    }
}

impl Interrupt {
    pub fn new(vector: u8) -> (r: Self)
        ensures
            r == (Interrupt { vector, stage: Stage::Raised }),
    {
        Interrupt { vector, stage: Stage::Raised }
    }
}

/// What a driver gets for the interrupt of its device: it may bind the vector
/// and hand it on.
pub open spec fn irq_cap(vector: u8) -> Capability {
    Capability { object: Object::Irq(vector as u32), rights: Rights(0x06) }
}

impl Kernel {
    /// The interrupt of a device the caller holds was pointed at `vector`: make
    /// the object and give it to the caller. Returns the slot.
    pub fn sys_dev_irq(&mut self, bits: &[u64], irqs: &mut IrqTable, me: TaskId, vector: u8) -> (r: i64)
        requires
            old(self).wf(bits@),
            old(irqs).wf(),
            old(self).sched.task(me) is Some,
        ensures
            final(self).wf(bits@),
            final(irqs).wf(),
            final(irqs).next_msi == old(irqs).next_msi,
            final(irqs).slots@ == old(irqs).slots@.update(vector as int, Some(IrqObject::edge(vector))),
            final(self).mem == old(self).mem,
            final(self).bm == old(self).bm,
            obj::has_room(old(self).caps_of(me)) ==> r == obj::free_slot(old(self).caps_of(me), 0)
                && final(self).table_is(old(self), me, obj::inserted(old(self).caps_of(me), irq_cap(vector))),
            !obj::has_room(old(self).caps_of(me)) ==> r == EINVAL && final(self).table_is(
                old(self),
                me,
                old(self).caps_of(me),
            ),
    {
        let ghost none = Seq::<Option<Capability>>::empty();
        let c: Capability = Capability { object: Object::Irq(vector as u32), rights: Rights(0x06) };
        irqs.msix(vector);
        proof {
            assert forall|id: u32| #[trigger] self.mem.refs(id) == self.holders(id) + count::sum(
                none.push(Some(c)),
                state::slot_weight(id),
            ) by {
                assert(self.mem.refs(id) == self.holders(id) + count::sum(none, state::slot_weight(id)));
                count::lemma_sum_push(none, Some(c), state::slot_weight(id));
            }
        }
        match self.give(me, c, Ghost(bits@), Ghost(none)) {
            Some(slot) => slot as i64,
            None => {
                proof {
                    assert forall|id: u32| #[trigger] self.mem.refs(id) == self.holders(id) + count::sum(
                        none,
                        state::slot_weight(id),
                    ) by {
                        assert(self.mem.refs(id) == self.holders(id) + count::sum(
                            none.push(Some(c)),
                            state::slot_weight(id),
                        ));
                        count::lemma_sum_push(none, Some(c), state::slot_weight(id));
                    }
                }
                EINVAL
            },
        }
    }

    /// Tell the endpoint that the object of a vector is bound to that an
    /// interrupt came, and count it. What is bound to nothing, or does not fit
    /// the queue, is dropped.
    fn forward(&mut self, bits: &[u64], irqs: &mut IrqTable, vector: u8)
        requires
            old(self).wf(bits@),
            old(irqs).wf(),
            old(irqs).can_count(vector),
            old(irqs).bound_below(vector, old(self).eps.eps@.len() as int),
        ensures
            final(self).wf(bits@),
            final(irqs).wf(),
            final(self).forwarded(old(self), old(irqs), final(irqs), vector),
    {
        let o: IrqObject = match irqs.slots[vector as usize] {
            None => {
                return ;
            },
            Some(o) => o,
        };
        let n: u64 = o.count + 1;
        let mut dropped: u64 = o.dropped;
        match o.endpoint {
            None => {
                dropped = dropped + 1;
            },
            Some(e) => {
                let words: [u64; 4] = [vector as u64, n, 0, NO_CAP];
                assert(words@ =~= event(vector, n));
                let msg: Message = Message::new(0, words);
                let code: i64 = self.post(bits, e, msg);
                if code != 0 {
                    dropped = dropped + 1;
                }
                assert(self.sent(old(self), e, msg, code));
            },
        }
        irqs.slots[vector as usize] = Some(IrqObject { count: n, dropped, ..o });
    }

    /// What forwarding an interrupt does to the kernel and to the table.
    pub open spec fn forwarded(&self, old: &Kernel, irqs0: &IrqTable, irqs1: &IrqTable, vector: u8) -> bool {
        &&& irqs1.next_msi == irqs0.next_msi
        &&& match irqs0.at(vector) {
            None => *self == *old && irqs1.slots@ == irqs0.slots@,
            Some(o) => {
                let n = (o.count + 1) as u64;
                match o.endpoint {
                    None => {
                        &&& *self == *old
                        &&& irqs1.slots@ == irqs0.slots@.update(
                            vector as int,
                            Some(IrqObject { count: n, dropped: (o.dropped + 1) as u64, ..o }),
                        )
                    },
                    Some(e) => exists|m: Message, code: i64|
                        {
                            &&& m.sender == 0
                            &&& m.words@ == event(vector, n)
                            &&& m.cap is None
                            &&& #[trigger] self.sent(old, e, m, code)
                            &&& irqs1.slots@ == irqs0.slots@.update(
                                vector as int,
                                Some(
                                    IrqObject {
                                        count: n,
                                        dropped: if code == 0 {
                                            o.dropped
                                        } else {
                                            (o.dropped + 1) as u64
                                        },
                                        ..o
                                    },
                                ),
                            )
                        },
                }
            },
        }
    }

    /// An interrupt is being handled: returns what the trap path does at the
    /// controllers next, and forwards the interrupt once it has acknowledged it.
    pub fn on_vector(&mut self, bits: &[u64], irqs: &mut IrqTable, i: &mut Interrupt) -> (r: Step)
        requires
            old(self).wf(bits@),
            old(irqs).wf(),
            old(irqs).can_count(old(i).vector),
            old(irqs).bound_below(old(i).vector, old(self).eps.eps@.len() as int),
        ensures
            final(self).wf(bits@),
            final(irqs).wf(),
            (*final(i), r) == next_step(*old(i), old(irqs).at(old(i).vector)),
            old(i).stage == Stage::Acknowledged ==> final(self).forwarded(
                old(self),
                old(irqs),
                final(irqs),
                old(i).vector,
            ),
            old(i).stage != Stage::Acknowledged ==> *final(self) == *old(self) && *final(irqs) == *old(irqs),
    {
        match i.stage {
            Stage::Raised => {
                if let Some(o) = irqs.slots[i.vector as usize] {
                    if o.level {
                        if let Some(gsi) = o.gsi {
                            i.stage = Stage::Masked;
                            return Step::Mask(gsi);
                        }
                    }
                }
                i.stage = Stage::Acknowledged;
                Step::Acknowledge
            },
            Stage::Masked => {
                i.stage = Stage::Acknowledged;
                Step::Acknowledge
            },
            Stage::Acknowledged => {
                self.forward(bits, irqs, i.vector);
                i.stage = Stage::Handled;
                Step::Return
            },
            Stage::Handled => Step::Return,
        }
    }
}

/// Every interrupt is acknowledged exactly once, and forwarded exactly once and
/// only then: before that the line is masked, if it is level-triggered, and after
/// that nothing is left to do, whatever becomes of the object meanwhile.
pub proof fn lemma_acknowledged_first(
    vector: u8,
    o: Option<IrqObject>,
    p: Option<IrqObject>,
    q: Option<IrqObject>,
)
    ensures
        ({
            let i0 = Interrupt { vector, stage: Stage::Raised };
            let (i1, s1) = next_step(i0, o);
            let (i2, s2) = next_step(i1, p);
            let (i3, s3) = next_step(i2, q);
            &&& match line_of(o) {
                Some(gsi) => {
                    &&& s1 == Step::Mask(gsi) && s2 == Step::Acknowledge && s3 == Step::Return
                    &&& i1.stage != Stage::Acknowledged
                    &&& i2.stage == Stage::Acknowledged
                    &&& i3.stage == Stage::Handled
                },
                None => {
                    &&& s1 == Step::Acknowledge && s2 == Step::Return && s3 == Step::Return
                    &&& i1.stage == Stage::Acknowledged
                    &&& i2.stage == Stage::Handled
                },
            }
            &&& next_step(i3, o) == (i3, Step::Return)
        }),
{
}

/// No two sources share a vector: ISA lines, MSI vectors, the timer and the
/// spurious vector are apart, and two MSI vectors are never the same.
pub proof fn lemma_vectors_apart(irq: int, other: int, t0: IrqTable, t1: IrqTable, a: u8, b: u8)
    requires
        0 <= irq < 16,
        0 <= other < 16,
        t0.wf(),
        t0.next_msi == a,
        t0.next_msi <= MSI_VECTOR_LAST,
        t1.wf(),
        t0.next_msi < t1.next_msi,
        t1.next_msi == b,
        t1.next_msi <= MSI_VECTOR_LAST,
    ensures
        a != b,
        ISA_VECTOR_BASE + irq == ISA_VECTOR_BASE + other ==> irq == other,
        ISA_VECTOR_BASE + irq != a,
        ISA_VECTOR_BASE + irq != IRQ_TIMER,
        a != IRQ_TIMER,
        a != SPURIOUS_VECTOR,
        ISA_VECTOR_BASE + irq != SPURIOUS_VECTOR,
{
}

/// A line that stays raised is masked at its input before anything else is done,
/// and any other interrupt is acknowledged at once.
pub proof fn lemma_level_lines(vector: u8, o: IrqObject)
    ensures
        ({
            let (i, s) = next_step(Interrupt { vector, stage: Stage::Raised }, Some(o));
            &&& o.level ==> (o.gsi matches Some(gsi) ==> s == Step::Mask(gsi) && i.stage == Stage::Masked)
            &&& !o.level || o.gsi is None ==> s == Step::Acknowledge && i.stage == Stage::Acknowledged
            &&& i.vector == vector
        }),
        next_step(Interrupt { vector, stage: Stage::Raised }, None).1 == Step::Acknowledge,
{
}

/// Whoever is given an interrupt may receive it and grant it, and nothing else.
pub proof fn lemma_irq_rights(vector: u8)
    ensures
        irq_cap(vector).object == Object::Irq(vector as u32),
        irq_cap(vector).rights.0 == 0x02u32 | 0x04,
{
    assert(0x02u32 | 0x04 == 0x06) by (bit_vector);
}

} // verus!
