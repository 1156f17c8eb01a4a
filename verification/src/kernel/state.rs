//! The kernel's tasks, endpoints, memory objects and services together, and
//! what the capability system keeps true of them: a memory object lives exactly
//! as long as a capability, a message, a mapping or a service refers to it.
use vstd::prelude::*;

use crate::kernel::bitmap;
use crate::kernel::bitmap::Bitmap;
use crate::kernel::count;
use crate::kernel::ipc::{Endpoint, Endpoints};
use crate::kernel::memory;
use crate::kernel::memory::{Counted, MemTable};
use crate::kernel::message::Message;
use crate::kernel::obj;
use crate::kernel::obj::{CapSlot, Capability, Object};
use crate::kernel::sched;
use crate::kernel::sched::Scheduler;
use crate::kernel::services::ServiceState;
use crate::kernel::task;
use crate::kernel::task::{Mapping, State, Task, TaskId};

verus! {

pub struct Kernel {
    pub sched: Scheduler,
    pub eps: Endpoints,
    pub mem: MemTable,
    pub bm: Bitmap,
    pub services: Vec<ServiceState>,
}

/// 1 if a capability is for memory object `id`.
pub open spec fn cap_refs(c: Capability, id: u32) -> int {
    if c.object == Object::Memory(id) {
        1
    } else {
        0
    }
}

pub open spec fn slot_refs(c: Option<Capability>, id: u32) -> int {
    match c {
        Some(c) => cap_refs(c, id),
        None => 0,
    }
}

pub open spec fn cap_weight(id: u32) -> spec_fn(Capability) -> int {
    |c: Capability| cap_refs(c, id)
}

pub open spec fn slot_weight(id: u32) -> spec_fn(Option<Capability>) -> int {
    |c: Option<Capability>| slot_refs(c, id)
}

pub open spec fn msg_weight(id: u32) -> spec_fn(Message) -> int {
    |m: Message| slot_refs(m.cap, id)
}

pub open spec fn map_weight(id: u32) -> spec_fn(Mapping) -> int {
    |m: Mapping|
        if m.object == id {
            1
        } else {
            0
        }
}

/// References to memory object `id` that a task holds: in its table, in its
/// inbox, and mapped.
pub open spec fn task_refs(t: Task, id: u32) -> int {
    count::sum(t.caps@, slot_weight(id)) + inbox_refs(t.ipc_inbox, id) + count::sum(
        t.maps@,
        map_weight(id),
    )
}

pub open spec fn inbox_refs(m: Option<Message>, id: u32) -> int {
    match m {
        Some(m) => slot_refs(m.cap, id),
        None => 0,
    }
}

pub open spec fn task_weight(id: u32) -> spec_fn(Task) -> int {
    |t: Task| task_refs(t, id)
}

pub open spec fn ep_weight(id: u32) -> spec_fn(Endpoint) -> int {
    |e: Endpoint| count::sum(e.queue@, msg_weight(id))
}

pub open spec fn service_weight(id: u32) -> spec_fn(ServiceState) -> int {
    |s: ServiceState| count::sum(s.spec.grants@, cap_weight(id))
}

impl Kernel {
    /// References to memory object `id` that tasks, queued messages and services
    /// hold.
    pub open spec fn holders(&self, id: u32) -> int {
        count::sum(self.sched.tasks@, task_weight(id)) + count::sum(self.eps.eps@, ep_weight(id))
            + count::sum(self.services@, service_weight(id))
    }

    /// Every memory object is counted right, with `loose` the capabilities on
    /// their way from one place to another.
    pub open spec fn balanced(&self, loose: Seq<Option<Capability>>) -> bool {
        forall|id: u32| #[trigger]
            self.mem.refs(id) == self.holders(id) + count::sum(loose, slot_weight(id))
    }

    /// Every task's capability table and mappings are in order.
    pub open spec fn tables_ok(&self) -> bool {
        forall|i: int|
            0 <= i < self.sched.tasks@.len() ==> (#[trigger] self.sched.tasks@[i]).caps.wf() && task::maps_ok(
                self.sched.tasks@[i].maps@,
            )
    }

    /// A task that waits for a message has none yet.
    pub open spec fn inboxes_ok(&self) -> bool {
        forall|i: int|
            0 <= i < self.sched.tasks@.len() && (#[trigger] self.sched.tasks@[i]).state == State::Blocked
                ==> self.sched.tasks@[i].ipc_inbox is None
    }

    pub open spec fn wf_with(&self, bits: Seq<u64>, loose: Seq<Option<Capability>>) -> bool {
        &&& self.sched.wf()
        &&& self.eps.wf()
        &&& self.bm.wf(bits)
        &&& self.mem.wf(bits, self.bm.frames as int)
        &&& self.tables_ok()
        &&& self.inboxes_ok()
        &&& self.balanced(loose)
    }

    /// The kernel is in order and no capability is on its way.
    pub open spec fn wf(&self, bits: Seq<u64>) -> bool {
        self.wf_with(bits, Seq::empty())
    }

    /// No object has so many references that one more could not be counted.
    pub open spec fn can_count(&self) -> bool {
        forall|id: u32| #[trigger] self.mem.refs(id) < u64::MAX
    }

    /// There are numbers left for objects, endpoints and tasks to come.
    pub open spec fn has_ids(&self) -> bool {
        &&& self.mem.objects@.len() < u32::MAX
        &&& self.eps.eps@.len() + 1 < u32::MAX
        &&& self.sched.next_id < task::NO_TASK
    }

    /// A kernel without tasks, endpoints, memory objects and services, over the
    /// frames that `bm` manages.
    pub fn new(bm: Bitmap, bits: &[u64]) -> (r: Self)
        requires
            bm.wf(bits@),
        ensures
            r.wf(bits@),
            r.has_ids(),
            r.can_count(),
            r.sched.tasks@.len() == 0,
            r.sched.ready@.len() == 0,
            r.sched.reap@.len() == 0,
            r.sched.next_id == 0,
            r.sched.supervisor == task::NO_TASK,
            r.eps.eps@.len() == 0,
            r.mem.objects@.len() == 0,
            r.bm == bm,
            r.services@.len() == 0,
    {
        let k: Kernel = Kernel {
            sched: Scheduler::new(),
            eps: Endpoints::new(),
            mem: MemTable::new(),
            bm,
            services: Vec::new(),
        };
        proof {
            assert(k.mem.wf(bits@, k.bm.frames as int));
            assert forall|id: u32| #[trigger] k.mem.refs(id) == k.holders(id) + count::sum(
                Seq::<Option<Capability>>::empty(),
                slot_weight(id),
            ) by {}
        }
        k
    }

    /// The capabilities of task `me`.
    pub open spec fn caps_of(&self, me: TaskId) -> Seq<Option<Capability>> {
        self.sched.task(me)->0.caps@
    }

    /// Of the tasks, only what the capability table of task `me` holds may differ
    /// from `old`, and it is `caps` now.
    pub open spec fn holds_now(&self, old: &Kernel, me: TaskId, caps: Seq<Option<Capability>>) -> bool {
        let p = sched::pos(old.sched.tasks@, me, 0);
        let t0 = old.sched.tasks@[p];
        let t1 = self.sched.tasks@[p];
        &&& self.sched.tasks@ == old.sched.tasks@.update(p, t1)
        &&& t1 == Task { caps: t1.caps, ..t0 }
        &&& t1.caps@ == caps
        &&& self.sched.ready@ == old.sched.ready@
        &&& self.sched.reap@ == old.sched.reap@
        &&& self.sched.next_id == old.sched.next_id
        &&& self.sched.supervisor == old.sched.supervisor
    }

    /// Memory objects aside, only the capability table of task `me` may differ
    /// from `old`, and it holds `caps` now.
    pub open spec fn table_is(&self, old: &Kernel, me: TaskId, caps: Seq<Option<Capability>>) -> bool {
        &&& self.holds_now(old, me, caps)
        &&& self.eps == old.eps
        &&& self.services == old.services
    }

    /// The memory objects after a capability was given up: one reference less
    /// if it was for one.
    pub open spec fn dropped(&self, old: &Kernel, c: Option<Capability>, b0: Seq<u64>, b1: Seq<u64>) -> bool {
        match c {
            Some(Capability { object: Object::Memory(id), .. }) => self.mem.let_go(
                &old.mem,
                id,
                &old.bm,
                &self.bm,
                b0,
                b1,
            ),
            _ => self.mem == old.mem && self.bm == old.bm && b1 == b0,
        }
    }

    /// Give up a capability that is on its way.
    pub(crate) fn drop_loose(&mut self, bits: &mut [u64], c: Option<Capability>, Ghost(rest): Ghost<
        Seq<Option<Capability>>,
    >)
        requires
            old(self).wf_with(old(bits)@, rest.push(c)),
        ensures
            final(self).wf_with(final(bits)@, rest),
            final(self).sched == old(self).sched,
            final(self).eps == old(self).eps,
            final(self).services == old(self).services,
            final(self).dropped(old(self), c, old(bits)@, final(bits)@),
    {
        proof {
            assert forall|id: u32| #[trigger] self.mem.refs(id) == self.holders(id) + count::sum(
                rest,
                slot_weight(id),
            ) + slot_refs(c, id) by {
                count::lemma_sum_push(rest, c, slot_weight(id));
            }
        }
        if let Some(cap) = c {
            if let Some(id) = cap.memory() {
                proof {
                    self.lemma_holders_nonneg(id);
                    lemma_slots_nonneg(rest, id);
                    assert(self.mem.refs(id) >= 1);
                }
                self.mem.release(id, &mut self.bm, bits);
                proof {
                    assert forall|i: u32| #[trigger] self.mem.refs(i) == self.holders(i) + count::sum(
                        rest,
                        slot_weight(i),
                    ) by {
                        assert(old(self).mem.refs(i) == old(self).holders(i) + count::sum(
                            rest,
                            slot_weight(i),
                        ) + slot_refs(c, i));
                    }
                }
            }
        }
    }

    pub proof fn lemma_holders_nonneg(&self, id: u32)
        ensures
            self.holders(id) >= 0,
    {
        self.lemma_parts_nonneg(id);
    }

    pub proof fn lemma_parts_nonneg(&self, id: u32)
        ensures
            count::sum(self.sched.tasks@, task_weight(id)) >= 0,
            count::sum(self.eps.eps@, ep_weight(id)) >= 0,
            count::sum(self.services@, service_weight(id)) >= 0,
    {
        assert forall|t: Task| #[trigger] task_weight(id)(t) >= 0 by {
            lemma_slots_nonneg(t.caps@, id);
            count::lemma_sum_nonneg(t.maps@, map_weight(id));
        }
        count::lemma_sum_nonneg(self.sched.tasks@, task_weight(id));
        assert forall|e: Endpoint| #[trigger] ep_weight(id)(e) >= 0 by {
            count::lemma_sum_nonneg(e.queue@, msg_weight(id));
        }
        count::lemma_sum_nonneg(self.eps.eps@, ep_weight(id));
        assert forall|s: ServiceState| #[trigger] service_weight(id)(s) >= 0 by {
            count::lemma_sum_nonneg(s.spec.grants@, cap_weight(id));
        }
        count::lemma_sum_nonneg(self.services@, service_weight(id));
    }

    /// Empty a slot of a task's table.
    pub fn cap_drop(&mut self, bits: &mut [u64], me: TaskId, slot: CapSlot) -> (r: bool)
        requires
            old(self).wf(old(bits)@),
            old(self).sched.task(me) is Some,
        ensures
            final(self).wf(final(bits)@),
            r == (obj::in_slot(old(self).caps_of(me), slot) is Some),
            final(self).table_is(
                old(self),
                me,
                if slot < old(self).caps_of(me).len() {
                    old(self).caps_of(me).update(slot as int, None)
                } else {
                    old(self).caps_of(me)
                },
            ),
            final(self).dropped(
                old(self),
                obj::in_slot(old(self).caps_of(me), slot),
                old(bits)@,
                final(bits)@,
            ),
    {
        let p: usize = self.sched.find(me);
        let ghost t0 = self.sched.tasks@[p as int];
        let c: Option<Capability> = self.sched.tasks[p].caps.remove(slot);
        let ghost t1 = self.sched.tasks@[p as int];
        proof {
            sched::lemma_task_changed(&old(self).sched, &self.sched, p as int);
            assert forall|id: u32| #[trigger] self.mem.refs(id) == self.holders(id) + count::sum(
                Seq::<Option<Capability>>::empty().push(c),
                slot_weight(id),
            ) by {
                assert(old(self).mem.refs(id) == old(self).holders(id) + count::sum(
                    Seq::<Option<Capability>>::empty(),
                    slot_weight(id),
                ));
                count::lemma_sum_push(Seq::<Option<Capability>>::empty(), c, slot_weight(id));
                if slot < t0.caps@.len() {
                    count::lemma_sum_update(t0.caps@, slot as int, None, slot_weight(id));
                }
                count::lemma_sum_update(old(self).sched.tasks@, p as int, t1, task_weight(id));
            }
            self.lemma_kept(old(self), p as int);
        }
        self.drop_loose(bits, c, Ghost(Seq::empty()));
        c.is_some()
    }

    /// The task tables keep their order when one task's capabilities or inbox
    /// change.
    pub proof fn lemma_kept(&self, old: &Kernel, p: int)
        requires
            old.tables_ok(),
            old.inboxes_ok(),
            0 <= p < old.sched.tasks@.len(),
            self.sched.tasks@ =~= old.sched.tasks@.update(p, self.sched.tasks@[p]),
            self.sched.tasks@[p].caps.wf(),
            task::maps_ok(self.sched.tasks@[p].maps@),
            self.sched.tasks@[p].state == State::Blocked ==> self.sched.tasks@[p].ipc_inbox is None,
        ensures
            self.tables_ok(),
            self.inboxes_ok(),
    {
        assert forall|i: int| 0 <= i < self.sched.tasks@.len() implies (
        #[trigger] self.sched.tasks@[i]).caps.wf() && task::maps_ok(self.sched.tasks@[i].maps@) by {
            if i != p {
                assert(self.sched.tasks@[i] == old.sched.tasks@[i]);
            }
        }
        assert forall|i: int|
            0 <= i < self.sched.tasks@.len() && (#[trigger] self.sched.tasks@[i]).state == State::Blocked
                implies self.sched.tasks@[i].ipc_inbox is None by {
            if i != p {
                assert(self.sched.tasks@[i] == old.sched.tasks@[i]);
            }
        }
    }

    /// A memory object that a task's table refers to exists.
    pub proof fn lemma_held_live(&self, bits: Seq<u64>, loose: Seq<Option<Capability>>, me: TaskId, slot: CapSlot)
        requires
            self.wf_with(bits, loose),
            self.sched.task(me) is Some,
            obj::in_slot(self.caps_of(me), slot) is Some,
        ensures
            obj::in_slot(self.caps_of(me), slot)->0.object matches Object::Memory(id) ==> self.mem.live(
                id as int,
            ),
    {
        let c = obj::in_slot(self.caps_of(me), slot)->0;
        if let Object::Memory(id) = c.object {
            let ts = self.sched.tasks@;
            let p = sched::pos(ts, me, 0);
            sched::lemma_pos(ts, me, 0);
            count::lemma_sum_part(ts[p].caps@, slot as int, slot_weight(id));
            assert forall|t: Task| #[trigger] task_weight(id)(t) >= 0 by {
                lemma_slots_nonneg(t.caps@, id);
                count::lemma_sum_nonneg(t.maps@, map_weight(id));
            }
            count::lemma_sum_nonneg(ts[p].maps@, map_weight(id));
            count::lemma_sum_part(ts, p, task_weight(id));
            assert(task_weight(id)(ts[p]) >= 1);
            assert forall|e: Endpoint| #[trigger] ep_weight(id)(e) >= 0 by {
                count::lemma_sum_nonneg(e.queue@, msg_weight(id));
            }
            count::lemma_sum_nonneg(self.eps.eps@, ep_weight(id));
            assert forall|s: ServiceState| #[trigger] service_weight(id)(s) >= 0 by {
                count::lemma_sum_nonneg(s.spec.grants@, cap_weight(id));
            }
            count::lemma_sum_nonneg(self.services@, service_weight(id));
            lemma_slots_nonneg(loose, id);
            assert(self.mem.refs(id) >= 1);
        }
    }

    /// The memory objects after a capability was copied: one reference more if
    /// it is for one.
    pub open spec fn copied(&self, old: &Kernel, c: Capability) -> bool {
        &&& self.bm == old.bm
        &&& match c.object {
            Object::Memory(id) => self.mem.objects@ == old.mem.objects@.update(
                id as int,
                Some(
                    Counted {
                        refs: (old.mem.objects@[id as int]->0.refs + 1) as u64,
                        ..old.mem.objects@[id as int]->0
                    },
                ),
            ),
            _ => self.mem == old.mem,
        }
    }

    /// Count one more copy of a capability, which is then on its way.
    pub(crate) fn copy_loose(&mut self, c: Capability, Ghost(bits): Ghost<Seq<u64>>, Ghost(loose): Ghost<
        Seq<Option<Capability>>,
    >)
        requires
            old(self).wf_with(bits, loose),
            c.object matches Object::Memory(id) ==> old(self).mem.live(id as int) && old(self).mem.refs(id)
                < u64::MAX,
        ensures
            final(self).wf_with(bits, loose.push(Some(c))),
            final(self).sched == old(self).sched,
            final(self).eps == old(self).eps,
            final(self).services == old(self).services,
            final(self).copied(old(self), c),
    {
        if let Some(id) = c.memory() {
            assert(self.mem.refs(id) < u64::MAX);
            self.mem.retain(id);
            proof {
                self.mem.lemma_recounted(&old(self).mem, id, bits, self.bm.frames as int);
            }
        }
        proof {
            assert forall|i: u32| #[trigger] self.mem.refs(i) == self.holders(i) + count::sum(
                loose.push(Some(c)),
                slot_weight(i),
            ) by {
                assert(old(self).mem.refs(i) == old(self).holders(i) + count::sum(loose, slot_weight(i)));
                count::lemma_sum_push(loose, Some(c), slot_weight(i));
            }
        }
    }

    /// Put a capability that is on its way into a task's table, if there is
    /// room.
    pub(crate) fn give(&mut self, me: TaskId, c: Capability, Ghost(bits): Ghost<Seq<u64>>, Ghost(rest): Ghost<
        Seq<Option<Capability>>,
    >) -> (r: Option<CapSlot>)
        requires
            old(self).wf_with(bits, rest.push(Some(c))),
            old(self).sched.task(me) is Some,
        ensures
            final(self).mem == old(self).mem,
            final(self).bm == old(self).bm,
            r is Some <==> obj::has_room(old(self).caps_of(me)),
            r is None ==> final(self).wf_with(bits, rest.push(Some(c))) && final(self).table_is(
                old(self),
                me,
                old(self).caps_of(me),
            ),
            r matches Some(slot) ==> {
                &&& final(self).wf_with(bits, rest)
                &&& slot == obj::free_slot(old(self).caps_of(me), 0)
                &&& slot < obj::MAX_SLOTS
                &&& final(self).table_is(old(self), me, obj::inserted(old(self).caps_of(me), c))
            },
            final(self).sched.task(me) is Some,
    {
        let p: usize = self.sched.find(me);
        let ghost t0 = self.sched.tasks@[p as int];
        assert(t0.caps.wf());
        let r: Option<CapSlot> = self.sched.tasks[p].caps.insert(c);
        let ghost t1 = self.sched.tasks@[p as int];
        proof {
            sched::lemma_task_changed(&old(self).sched, &self.sched, p as int);
            self.lemma_kept(old(self), p as int);
            assert(self.sched.tasks@ =~= old(self).sched.tasks@.update(p as int, t1));
            assert forall|id: u32| #[trigger] self.mem.refs(id) == self.holders(id) + (if r is Some {
                count::sum(rest, slot_weight(id))
            } else {
                count::sum(rest.push(Some(c)), slot_weight(id))
            }) by {
                assert(old(self).mem.refs(id) == old(self).holders(id) + count::sum(
                    rest.push(Some(c)),
                    slot_weight(id),
                ));
                count::lemma_sum_push(rest, Some(c), slot_weight(id));
                count::lemma_sum_update(old(self).sched.tasks@, p as int, t1, task_weight(id));
                if r is Some {
                    let s = t0.caps@;
                    let i = obj::free_slot(s, 0);
                    obj::lemma_free_slot(s, 0);
                    if i < s.len() {
                        count::lemma_sum_update(s, i, Some(c), slot_weight(id));
                    } else {
                        count::lemma_sum_push(s, Some(c), slot_weight(id));
                    }
                }
            }
        }
        r
    }
}

proof fn lemma_slots_nonneg(s: Seq<Option<Capability>>, id: u32)
    ensures
        count::sum(s, slot_weight(id)) >= 0,
{
    count::lemma_sum_nonneg(s, slot_weight(id));
}

/// A memory object lives exactly as long as a capability, a message, a mapping or
/// a service refers to it, and none of its frames is free meanwhile.
pub proof fn lemma_lives_while_held(k: &Kernel, bits: Seq<u64>, id: u32)
    requires
        k.wf(bits),
    ensures
        k.mem.live(id as int) <==> k.holders(id) > 0,
        k.mem.live(id as int) ==> memory::owned(k.mem.frames_of(id as int), bits, k.bm.frames as int),
{
    assert(k.mem.refs(id) == k.holders(id) + count::sum(
        Seq::<Option<Capability>>::empty(),
        slot_weight(id),
    ));
}

/// Scheduling never touches what tasks hold, so it keeps the kernel in order:
/// switching, sleeping, waking, ticking and dying change no capability, no
/// mapping and no message.
pub proof fn lemma_scheduling_keeps(k0: &Kernel, k1: &Kernel, bits: Seq<u64>)
    requires
        k0.wf(bits),
        k1.sched.wf(),
        sched::only_scheduled(k0.sched.tasks@, k1.sched.tasks@),
        k1.eps == k0.eps,
        k1.mem == k0.mem,
        k1.bm == k0.bm,
        k1.services == k0.services,
    ensures
        k1.wf(bits),
        k0.can_count() ==> k1.can_count(),
{
    let a = k0.sched.tasks@;
    let b = k1.sched.tasks@;
    assert forall|id: u32| #[trigger] k1.mem.refs(id) == k1.holders(id) + count::sum(
        Seq::<Option<Capability>>::empty(),
        slot_weight(id),
    ) by {
        assert(k0.mem.refs(id) == k0.holders(id) + count::sum(
            Seq::<Option<Capability>>::empty(),
            slot_weight(id),
        ));
        assert forall|i: int| 0 <= i < a.len() implies task_weight(id)(#[trigger] a[i]) == task_weight(id)(
            b[i],
        ) by {
            assert(sched::keeps(a[i], b[i]));
        }
        count::lemma_sum_same(a, b, task_weight(id));
    }
    assert forall|i: int| 0 <= i < b.len() implies (#[trigger] b[i]).caps.wf() && task::maps_ok(b[i].maps@) by {
        assert(sched::keeps(a[i], b[i]));
    }
    assert forall|i: int| 0 <= i < b.len() && (#[trigger] b[i]).state == State::Blocked implies b[i].ipc_inbox is None by {
        assert(sched::keeps(a[i], b[i]));
    }
}

/// So does a new thread, which holds nothing.
pub proof fn lemma_new_thread_keeps(k0: &Kernel, k1: &Kernel, bits: Seq<u64>)
    requires
        k0.wf(bits),
        k1.sched.wf(),
        k1.sched.tasks@.len() == k0.sched.tasks@.len() + 1,
        k1.sched.tasks@.drop_last() == k0.sched.tasks@,
        task::bare(k1.sched.tasks@.last()),
        k1.eps == k0.eps,
        k1.mem == k0.mem,
        k1.bm == k0.bm,
        k1.services == k0.services,
    ensures
        k1.wf(bits),
        k0.can_count() ==> k1.can_count(),
{
    let a = k0.sched.tasks@;
    let b = k1.sched.tasks@;
    assert forall|id: u32| #[trigger] k1.mem.refs(id) == k1.holders(id) + count::sum(
        Seq::<Option<Capability>>::empty(),
        slot_weight(id),
    ) by {
        assert(k0.mem.refs(id) == k0.holders(id) + count::sum(
            Seq::<Option<Capability>>::empty(),
            slot_weight(id),
        ));
        assert(task_weight(id)(b.last()) == 0);
    }
    assert forall|i: int| 0 <= i < b.len() implies (#[trigger] b[i]).caps.wf() && task::maps_ok(b[i].maps@) by {
        if i < a.len() {
            assert(b[i] == a[i]);
        }
    }
    assert forall|i: int| 0 <= i < b.len() && (#[trigger] b[i]).state == State::Blocked implies b[i].ipc_inbox is None by {
        if i < a.len() {
            assert(b[i] == a[i]);
        }
    }
}

/// So does taking frames for page tables and giving them back, as long as no
/// frame of a memory object is given back.
pub proof fn lemma_table_frames_keep(k0: &Kernel, k1: &Kernel, b0: Seq<u64>, b1: Seq<u64>)
    requires
        k0.wf(b0),
        k1.sched == k0.sched,
        k1.eps == k0.eps,
        k1.mem == k0.mem,
        k1.services == k0.services,
        k1.bm.wf(b1),
        k1.bm.frames == k0.bm.frames,
        forall|i: int, j: int|
            #![trigger k0.mem.frames_of(i)[j]]
            k0.mem.live(i) && 0 <= j < k0.mem.frames_of(i).len() ==> bitmap::used(
                b1,
                k0.mem.frames_of(i)[j] as int / 4096,
            ),
    ensures
        k1.wf(b1),
        k0.can_count() ==> k1.can_count(),
{
    let frames = k0.bm.frames as int;
    assert forall|i: int| #![trigger k1.mem.objects@[i]] k1.mem.live(i) implies k1.mem.objects@[i]->0.refs > 0
        && memory::owned(k1.mem.frames_of(i), b1, frames) by {
        let list = k0.mem.frames_of(i);
        assert(memory::owned(list, b0, frames));
        assert forall|j: int| 0 <= j < list.len() implies memory::held(#[trigger] list[j], b1, frames) by {
            assert(memory::held(list[j], b0, frames));
        }
    }
    assert forall|id: u32| #[trigger] k1.mem.refs(id) == k1.holders(id) + count::sum(
        Seq::<Option<Capability>>::empty(),
        slot_weight(id),
    ) by {
        assert(k0.mem.refs(id) == k0.holders(id) + count::sum(
            Seq::<Option<Capability>>::empty(),
            slot_weight(id),
        ));
    }
}

} // verus!
