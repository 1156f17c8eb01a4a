//! System calls: what each does to the kernel's state, and what is left to do
//! where user memory, page tables or devices are touched.
use vstd::prelude::*;

use crate::kernel::bitmap;
use crate::kernel::count;
use crate::kernel::ipc;
use crate::kernel::ipc::{Endpoint, IpcError};
use crate::kernel::memory;
use crate::kernel::message::Message;
use crate::kernel::obj;
use crate::kernel::obj::{CapSlot, Capability, Object, Rights};
use crate::kernel::sched;
use crate::kernel::state;
use crate::kernel::state::Kernel;
use crate::kernel::task;
use crate::kernel::task::{Mapping, State, Task, TaskId};
use crate::rt::abi;
use crate::rt::abi::{NO_CAP, RIGHT_DMA, RIGHT_MAP_READ, RIGHT_MAP_WRITE, RIGHT_SEND};

verus! {

pub const EPERM: i64 = -1;

pub const EAGAIN: i64 = -2;

pub const EFAULT: i64 = -3;

pub const EINVAL: i64 = -4;

pub const ENOSYS: i64 = -5;

pub const ENOMEM: i64 = -6;

/// End of the lower half, where user memory lies.
pub const USER_TOP: u64 = 0x0000_8000_0000_0000;

/// Bytes a call may read or write in user memory at once.
pub const MAX_LOG: u64 = 4096;

pub const MAX_MEM_PAGES: u64 = 1024;

pub const MAX_DMA_PAGES: u64 = 64;

/// Whether a range of user memory may be touched.
pub open spec fn user_range(ptr: u64, len: u64) -> bool {
    len <= MAX_LOG && ptr + len <= USER_TOP
}

pub fn user_range_ok(ptr: u64, len: u64) -> (r: bool)
    ensures
        r == user_range(ptr, len),
{
    if len > MAX_LOG {
        return false;
    }
    match ptr.checked_add(len) {
        None => false,
        Some(end) => end <= USER_TOP,
    }
}

fn slot_of(v: u64) -> (r: CapSlot)
    ensures
        r == abi::low32(v),
{
    (v % 0x1_0000_0000) as u32
}

/// What receiving came to.
pub enum Received {
    /// A message: its sender, and its words with the slot of its capability
    /// last.
    Got { sender: TaskId, words: [u64; 4] },
    /// None yet; the task is registered and blocked.
    Wait,
}

impl Kernel {
    /// The endpoint a slot of task `me` gives `rights` on.
    pub open spec fn endpoint_in(&self, me: TaskId, slot: u64, rights: u32) -> Option<u32> {
        match obj::usable_slot(self.caps_of(me), abi::low32(slot), Rights(rights)) {
            Some(Capability { object: Object::Endpoint(e), .. }) => if e < self.eps.eps@.len() {
                Some(e)
            } else {
                None
            },
            _ => None,
        }
    }

    pub(crate) fn lookup_endpoint(&self, me: TaskId, slot: u64, rights: u32) -> (r: Option<u32>)
        requires
            self.sched.task(me) is Some,
        ensures
            r == self.endpoint_in(me, slot, rights),
    {
        let p: usize = self.sched.find(me);
        match self.sched.tasks[p].caps.lookup(slot_of(slot), Rights(rights)) {
            None => None,
            Some(c) => match c.endpoint() {
                None => None,
                Some(e) => if (e as usize) < self.eps.eps.len() {
                    Some(e)
                } else {
                    None
                },
            },
        }
    }

    /// `self` is `old` after `msg` was sent on endpoint `e`; memory objects
    /// aside.
    pub open spec fn sent(&self, old: &Kernel, e: u32, msg: Message, r: i64) -> bool {
        let t = old.eps.target(e) as int;
        let d: Result<(), IpcError> = if r == 0 {
            Ok(())
        } else {
            Err(IpcError::QueueFull)
        };
        &&& r == 0 || r == EAGAIN
        &&& self.services == old.services
        &&& self.eps.eps@ == old.eps.eps@.update(t, self.eps.eps@[t])
        &&& self.eps.eps@[t].delivered(&old.eps.eps@[t], msg, &old.sched, &self.sched, d)
    }

    /// Deliver a message on endpoint `e`; its capability, if any, was on its
    /// way.
    fn deliver(&mut self, e: u32, msg: Message, Ghost(bits): Ghost<Seq<u64>>, Ghost(rest): Ghost<
        Seq<Option<Capability>>,
    >) -> (r: i64)
        requires
            old(self).wf_with(bits, rest.push(msg.cap)),
            e < old(self).eps.eps@.len(),
        ensures
            final(self).mem == old(self).mem,
            final(self).bm == old(self).bm,
            final(self).sent(old(self), e, msg, r),
            r == 0 ==> final(self).wf_with(bits, rest),
            r != 0 ==> final(self).wf_with(bits, rest.push(msg.cap)),
            forall|id: TaskId| old(self).sched.task(id) is Some ==> #[trigger] final(self).sched.task(
                id,
            ) is Some,
    {
        let ghost t = self.eps.target(e) as int;
        let d: Result<(), IpcError> = self.eps.send(e, msg, &mut self.sched);
        proof {
            assert(old(self).eps.eps@[e as int].queue@.len() <= ipc::QUEUE_LIMIT);
            lemma_delivered_counts(old(self), self, t, msg, d);
            assert forall|id: u32| #[trigger] self.mem.refs(id) == self.holders(id) + (if d is Ok {
                count::sum(rest, state::slot_weight(id))
            } else {
                count::sum(rest.push(msg.cap), state::slot_weight(id))
            }) by {
                assert(old(self).mem.refs(id) == old(self).holders(id) + count::sum(
                    rest.push(msg.cap),
                    state::slot_weight(id),
                ));
                count::lemma_sum_push(rest, msg.cap, state::slot_weight(id));
            }
        }
        match d {
            Ok(_) => 0,
            Err(_) => EAGAIN,
        }
    }

    /// Deliver a message without a capability on endpoint `e`.
    pub fn post(&mut self, bits: &[u64], e: u32, msg: Message) -> (r: i64)
        requires
            old(self).wf(bits@),
            e < old(self).eps.eps@.len(),
            msg.cap is None,
        ensures
            final(self).wf(bits@),
            final(self).mem == old(self).mem,
            final(self).bm == old(self).bm,
            final(self).sent(old(self), e, msg, r),
            forall|id: TaskId| old(self).sched.task(id) is Some ==> #[trigger] final(self).sched.task(
                id,
            ) is Some,
    {
        proof {
            assert forall|id: u32| #[trigger] self.mem.refs(id) == self.holders(id) + count::sum(
                Seq::<Option<Capability>>::empty().push(msg.cap),
                state::slot_weight(id),
            ) by {
                assert(self.mem.refs(id) == self.holders(id) + count::sum(
                    Seq::<Option<Capability>>::empty(),
                    state::slot_weight(id),
                ));
                count::lemma_sum_push(
                    Seq::<Option<Capability>>::empty(),
                    msg.cap,
                    state::slot_weight(id),
                );
            }
        }
        let r: i64 = self.deliver(e, msg, Ghost(bits@), Ghost(Seq::empty()));
        proof {
            if r != 0 {
                assert forall|id: u32| #[trigger] self.mem.refs(id) == self.holders(id) + count::sum(
                    Seq::<Option<Capability>>::empty(),
                    state::slot_weight(id),
                ) by {
                    count::lemma_sum_push(
                        Seq::<Option<Capability>>::empty(),
                        msg.cap,
                        state::slot_weight(id),
                    );
                    assert(self.mem.refs(id) == self.holders(id) + count::sum(
                        Seq::<Option<Capability>>::empty().push(msg.cap),
                        state::slot_weight(id),
                    ));
                }
            }
        }
        r
    }

    /// What sending three words does.
    pub open spec fn send_done(
        &self,
        old: &Kernel,
        me: TaskId,
        slot: u64,
        w0: u64,
        w1: u64,
        w2: u64,
        r: i64,
    ) -> bool {
        &&& self.mem == old.mem
        &&& self.bm == old.bm
        &&& match old.endpoint_in(me, slot, RIGHT_SEND) {
            None => r == EPERM && *self == *old,
            Some(e) => exists|msg: Message| #[trigger]
                self.sent(old, e, msg, r) && msg.sender == me && msg.words@ == seq![w0, w1, w2, NO_CAP]
                    && msg.cap is None,
        }
    }

    /// Send three words.
    pub fn sys_send(&mut self, bits: &[u64], me: TaskId, slot: u64, w0: u64, w1: u64, w2: u64) -> (r: i64)
        requires
            old(self).wf(bits@),
            old(self).sched.task(me) is Some,
        ensures
            final(self).wf(bits@),
            final(self).send_done(old(self), me, slot, w0, w1, w2, r),
    {
        let e: u32 = match self.lookup_endpoint(me, slot, RIGHT_SEND) {
            None => {
                return EPERM;
            },
            Some(e) => e,
        };
        let msg: Message = Message::new(me, [w0, w1, w2, NO_CAP]);
        assert(msg.words@ =~= seq![w0, w1, w2, NO_CAP]);
        self.post(bits, e, msg)
    }

    /// What sending a copy of a capability does.
    pub open spec fn send_cap_done(
        &self,
        old: &Kernel,
        me: TaskId,
        ep_slot: u64,
        cap_slot: u64,
        mask: u64,
        w0: u64,
        r: i64,
    ) -> bool {
        &&& self.bm == old.bm
        &&& match (
            old.endpoint_in(me, ep_slot, RIGHT_SEND),
            obj::derived(old.caps_of(me), abi::low32(cap_slot), Rights(abi::low32(mask))),
        ) {
            (Some(e), Some(c)) => {
                &&& exists|msg: Message| #[trigger]
                    self.sent(old, e, msg, r) && msg.sender == me && msg.words@ == seq![w0, 0, 0, NO_CAP]
                        && msg.cap == Some(c)
                &&& r == 0 ==> self.copied(old, c)
                &&& r != 0 ==> self.mem.objects@ == old.mem.objects@
            },
            _ => r == EPERM && *self == *old,
        }
    }

    /// Send `w0` plus a copy of a capability, its rights masked.
    pub fn sys_send_cap(
        &mut self,
        bits: &mut [u64],
        me: TaskId,
        ep_slot: u64,
        cap_slot: u64,
        mask: u64,
        w0: u64,
    ) -> (r: i64)
        requires
            old(self).wf(old(bits)@),
            old(self).can_count(),
            old(self).sched.task(me) is Some,
        ensures
            final(self).wf(final(bits)@),
            final(bits)@ == old(bits)@,
            final(self).send_cap_done(old(self), me, ep_slot, cap_slot, mask, w0, r),
    {
        let e: u32 = match self.lookup_endpoint(me, ep_slot, RIGHT_SEND) {
            None => {
                return EPERM;
            },
            Some(e) => e,
        };
        let p: usize = self.sched.find(me);
        let c: Capability = match self.sched.tasks[p].caps.derive(slot_of(cap_slot), Rights(slot_of(mask))) {
            None => {
                return EPERM;
            },
            Some(c) => c,
        };
        proof {
            self.lemma_held_live(bits@, Seq::empty(), me, abi::low32(cap_slot));
        }
        self.copy_loose(c, Ghost(bits@), Ghost(Seq::empty()));
        let ghost k1 = *self;
        let mut msg: Message = Message::new(me, [w0, 0, 0, NO_CAP]);
        msg.cap = Some(c);
        assert(msg.words@ =~= seq![w0, 0, 0, NO_CAP]);
        let r: i64 = self.deliver(e, msg, Ghost(bits@), Ghost(Seq::empty()));
        assert(self.sent(old(self), e, msg, r));
        if r != 0 {
            let ghost k2 = *self;
            proof {
                if let Object::Memory(id) = c.object {
                    assert(old(self).mem.live(id as int));
                    assert(old(self).mem.objects@[id as int] is Some);
                }
            }
            self.drop_loose(bits, Some(c), Ghost(Seq::empty()));
            proof {
                if let Object::Memory(id) = c.object {
                    let o = old(self).mem.objects@[id as int];
                    assert(old(self).mem.refs(id) < u64::MAX);
                    assert(o->0.refs > 0);
                    assert(self.mem.objects@[id as int] == o);
                }
                assert(self.mem.objects@ =~= old(self).mem.objects@);
                assert(self.sent(old(self), e, msg, r));
            }
        }
        r
    }

    /// `self` is `old` after task `me` took in a message: its capability went
    /// into the first free slot of the task's table, or was given up if there
    /// is none. `words` is what the task gets to see.
    pub open spec fn accepted(
        &self,
        old: &Kernel,
        me: TaskId,
        msg: Message,
        words: Seq<u64>,
        b0: Seq<u64>,
        b1: Seq<u64>,
    ) -> bool {
        let caps = old.caps_of(me);
        match msg.cap {
            None => {
                &&& words == msg.words@.update(3, NO_CAP)
                &&& self.holds_now(old, me, caps)
                &&& self.dropped(old, None, b0, b1)
            },
            Some(c) => if obj::has_room(caps) {
                &&& words == msg.words@.update(3, obj::free_slot(caps, 0) as u64)
                &&& self.holds_now(old, me, obj::inserted(caps, c))
                &&& self.dropped(old, None, b0, b1)
            } else {
                &&& words == msg.words@.update(3, NO_CAP)
                &&& self.holds_now(old, me, caps)
                &&& self.dropped(old, Some(c), b0, b1)
            },
        }
    }

    /// Take in a message whose capability is on its way.
    fn accept(&mut self, bits: &mut [u64], me: TaskId, msg: Message) -> (r: [u64; 4])
        requires
            old(self).wf_with(old(bits)@, Seq::empty().push(msg.cap)),
            old(self).sched.task(me) is Some,
        ensures
            final(self).wf(final(bits)@),
            final(self).eps == old(self).eps,
            final(self).services == old(self).services,
            final(self).accepted(old(self), me, msg, r@, old(bits)@, final(bits)@),
    {
        let mut words: [u64; 4] = msg.words;
        let ghost none = Seq::<Option<Capability>>::empty();
        proof {
            let p = sched::pos(self.sched.tasks@, me, 0);
            sched::lemma_pos(self.sched.tasks@, me, 0);
            assert(self.sched.tasks@ =~= self.sched.tasks@.update(p, self.sched.tasks@[p]));
        }
        match msg.cap {
            None => {
                words[3] = NO_CAP;
                proof {
                    assert(self.balanced(none)) by {
                        assert forall|id: u32| #[trigger] self.mem.refs(id) == self.holders(id) + count::sum(
                            none,
                            state::slot_weight(id),
                        ) by {
                            assert(self.mem.refs(id) == self.holders(id) + count::sum(
                                none.push(msg.cap),
                                state::slot_weight(id),
                            ));
                            count::lemma_sum_push(none, msg.cap, state::slot_weight(id));
                        }
                    }
                }
            },
            Some(c) => match self.give(me, c, Ghost(bits@), Ghost(none)) {
                Some(slot) => {
                    words[3] = slot as u64;
                },
                None => {
                    let ghost k1 = *self;
                    words[3] = NO_CAP;
                    self.drop_loose(bits, Some(c), Ghost(none));
                },
            },
        }
        assert(words@ =~= msg.words@.update(3, words@[3]));
        words
    }

    /// `self` is `old` after task `me`, waiting for nothing, asked endpoint `e`
    /// for a message.
    pub open spec fn asked(
        &self,
        old: &Kernel,
        me: TaskId,
        e: u32,
        r: Received,
        b0: Seq<u64>,
        b1: Seq<u64>,
    ) -> bool {
        let e0 = old.eps.eps@[e as int];
        let e1 = self.eps.eps@[e as int];
        &&& self.eps.eps@ == old.eps.eps@.update(e as int, e1)
        &&& e1.peer == e0.peer
        &&& self.services == old.services
        &&& if e0.queue@.len() > 0 {
            let msg = e0.queue@[0];
            &&& e1.queue@ == e0.queue@.subrange(1, e0.queue@.len() as int)
            &&& e1.receivers@ == e0.receivers@
            &&& r matches Received::Got { sender, words } && sender == msg.sender && self.accepted(
                old,
                me,
                msg,
                words@,
                b0,
                b1,
            )
        } else {
            &&& r is Wait
            &&& e1.queue@ == e0.queue@
            &&& e1.receivers@ == e0.receivers@.push(me)
            &&& self.mem == old.mem
            &&& self.bm == old.bm
            &&& b1 == b0
            &&& self.sched.tasks@ == old.sched.tasks@.update(
                sched::pos(old.sched.tasks@, me, 0),
                Task { ipc_inbox: None, state: State::Blocked, ..old.sched.task(me)->0 },
            )
            &&& self.sched.ready@ == old.sched.ready@
            &&& self.sched.reap@ == old.sched.reap@
            &&& self.sched.next_id == old.sched.next_id
            &&& self.sched.supervisor == old.sched.supervisor
        }
    }

    /// Take the oldest message of endpoint `e`, or register and block.
    pub fn recv_from(&mut self, bits: &mut [u64], me: TaskId, e: u32) -> (r: Received)
        requires
            old(self).wf(old(bits)@),
            old(self).sched.task(me) is Some,
            old(self).sched.task(me)->0.ipc_inbox is None,
            e < old(self).eps.eps@.len(),
        ensures
            final(self).wf(final(bits)@),
            final(self).asked(old(self), me, e, r, old(bits)@, final(bits)@),
            final(self).sched.task(me) is Some,
    {
        let ghost e0 = self.eps.eps@[e as int];
        let ghost none = Seq::<Option<Capability>>::empty();
        let ghost ts = self.sched.tasks@;
        let ghost p = sched::pos(ts, me, 0);
        proof {
            sched::lemma_pos(ts, me, 0);
        }
        let got: Option<Message> = self.eps.eps[e as usize].recv(me, &mut self.sched);
        let ghost k1 = *self;
        proof {
            let e1 = self.eps.eps@[e as int];
            assert(self.eps.eps@ =~= old(self).eps.eps@.update(e as int, e1));
            assert(self.eps.wf()) by {
                assert forall|i: int| 0 <= i < self.eps.eps@.len() implies {
                    &&& (#[trigger] self.eps.eps@[i]).queue@.len() <= ipc::QUEUE_LIMIT
                    &&& self.eps.eps@[i].peer matches Some(j) ==> j < self.eps.eps@.len()
                        && self.eps.eps@[j as int].peer == Some(i as u32)
                } by {
                    assert(old(self).eps.eps@[i].queue@.len() <= ipc::QUEUE_LIMIT);
                }
            }
            if got is None {
                self.lemma_kept(old(self), p);
                sched::lemma_found_same(ts, self.sched.tasks@, p);
            }
            assert forall|id: u32| #[trigger] self.mem.refs(id) == self.holders(id) + count::sum(
                none.push(if got is Some {
                    got->0.cap
                } else {
                    None
                }),
                state::slot_weight(id),
            ) by {
                assert(old(self).mem.refs(id) == old(self).holders(id) + count::sum(
                    none,
                    state::slot_weight(id),
                ));
                count::lemma_sum_push(
                    none,
                    if got is Some {
                        got->0.cap
                    } else {
                        None
                    },
                    state::slot_weight(id),
                );
                count::lemma_sum_update(old(self).eps.eps@, e as int, e1, state::ep_weight(id));
                if got is Some {
                    count::lemma_sum_front(e0.queue@, state::msg_weight(id));
                } else {
                    count::lemma_sum_update(ts, p, self.sched.tasks@[p], state::task_weight(id));
                }
            }
        }
        match got {
            Some(m) => {
                let words: [u64; 4] = self.accept(bits, me, m);
                proof {
                    sched::lemma_found_same(ts, self.sched.tasks@, p);
                }
                Received::Got { sender: m.sender, words }
            },
            None => {
                proof {
                    assert(self.balanced(none)) by {
                        assert forall|id: u32| #[trigger] self.mem.refs(id) == self.holders(id) + count::sum(
                            none,
                            state::slot_weight(id),
                        ) by {
                            count::lemma_sum_push(none, None, state::slot_weight(id));
                            assert(self.mem.refs(id) == self.holders(id) + count::sum(
                                none.push(None),
                                state::slot_weight(id),
                            ));
                        }
                    }
                }
                Received::Wait
            },
        }
    }

    /// `self` is `old` after task `me`, which waited at endpoint `e`, ran again.
    pub open spec fn resumed(
        &self,
        old: &Kernel,
        me: TaskId,
        e: u32,
        r: Received,
        b0: Seq<u64>,
        b1: Seq<u64>,
    ) -> bool {
        match old.sched.task(me)->0.ipc_inbox {
            None => self.asked(old, me, e, r, b0, b1),
            Some(msg) => {
                let p = sched::pos(old.sched.tasks@, me, 0);
                let t0 = old.sched.tasks@[p];
                let t1 = self.sched.tasks@[p];
                &&& self.eps == old.eps
                &&& self.services == old.services
                &&& self.sched.tasks@ == old.sched.tasks@.update(p, t1)
                &&& t1 == Task { ipc_inbox: None, caps: t1.caps, ..t0 }
                &&& r matches Received::Got { sender, words } && sender == msg.sender && {
                    &&& msg.cap is Some && obj::has_room(t0.caps@) ==> words@ == msg.words@.update(
                        3,
                        obj::free_slot(t0.caps@, 0) as u64,
                    ) && t1.caps@ == obj::inserted(t0.caps@, msg.cap->0) && self.dropped(
                        old,
                        None,
                        b0,
                        b1,
                    )
                    &&& !(msg.cap is Some && obj::has_room(t0.caps@)) ==> words@ == msg.words@.update(
                        3,
                        NO_CAP,
                    ) && t1.caps@ == t0.caps@ && self.dropped(
                        old,
                        msg.cap,
                        b0,
                        b1,
                    )
                }
            },
        }
    }

    /// A task that was blocked on endpoint `e` runs again: take the message it
    /// was woken for, or ask once more.
    pub fn recv_resume(&mut self, bits: &mut [u64], me: TaskId, e: u32) -> (r: Received)
        requires
            old(self).wf(old(bits)@),
            old(self).sched.task(me) is Some,
            e < old(self).eps.eps@.len(),
        ensures
            final(self).wf(final(bits)@),
            final(self).sched.task(me) is Some,
            final(self).resumed(old(self), me, e, r, old(bits)@, final(bits)@),
    {
        let ghost none = Seq::<Option<Capability>>::empty();
        let ghost ts = self.sched.tasks@;
        let ghost p = sched::pos(ts, me, 0);
        proof {
            sched::lemma_pos(ts, me, 0);
        }
        let got: Option<Message> = self.sched.take_inbox(me);
        proof {
            self.lemma_kept(old(self), p);
            sched::lemma_found_same(ts, self.sched.tasks@, p);
            assert forall|id: u32| #[trigger] self.mem.refs(id) == self.holders(id) + state::inbox_refs(
                got,
                id,
            ) by {
                assert(old(self).mem.refs(id) == old(self).holders(id) + count::sum(
                    none,
                    state::slot_weight(id),
                ));
                count::lemma_sum_update(ts, p, self.sched.tasks@[p], state::task_weight(id));
            }
        }
        match got {
            None => {
                proof {
                    assert(self.sched.tasks@ =~= ts);
                    assert(self.balanced(none));
                }
                self.recv_from(bits, me, e)
            },
            Some(m) => {
                proof {
                    assert(self.balanced(none.push(m.cap))) by {
                        assert forall|id: u32| #[trigger] self.mem.refs(id) == self.holders(id) + count::sum(
                            none.push(m.cap),
                            state::slot_weight(id),
                        ) by {
                            count::lemma_sum_push(none, m.cap, state::slot_weight(id));
                        }
                    }
                }
                let ghost k1 = *self;
                let words: [u64; 4] = self.accept(bits, me, m);
                proof {
                    sched::lemma_found_same(k1.sched.tasks@, self.sched.tasks@, p);
                    assert(self.sched.tasks@ =~= ts.update(p, self.sched.tasks@[p]));
                }
                Received::Got { sender: m.sender, words }
            },
        }
    }

    /// `self` is `old` with a new memory object of `pages` frames under number
    /// `id`, referred to once, with the frame map going from `b0` to `b1`.
    pub open spec fn created(&self, old: &Kernel, id: u32, pages: int, dma: bool, b0: Seq<u64>, b1: Seq<u64>) -> bool {
        let list = self.mem.frames_of(id as int);
        &&& !old.mem.live(id as int)
        &&& self.mem.live(id as int)
        &&& self.mem.refs(id) == 1
        &&& list.len() == pages
        &&& dma ==> forall|i: int| 0 <= i < pages ==> #[trigger] list[i] == list[0] + i * 4096
        &&& forall|i: int| i != id ==> #[trigger] self.mem.live(i) == old.mem.live(i)
        &&& forall|i: int|
            old.mem.live(i) ==> #[trigger] self.mem.objects@[i] == old.mem.objects@[i]
        &&& self.bm.free == old.bm.free - pages
        &&& forall|j: int|
            0 <= j < b0.len() * 64 ==> #[trigger] bitmap::used(b1, j) == (bitmap::used(b0, j) || memory::lists(
                list,
                j,
            ))
    }

    /// The same memory objects, and the same frames in use.
    pub open spec fn same_memory(&self, old: &Kernel, b0: Seq<u64>, b1: Seq<u64>) -> bool {
        &&& forall|i: int| #[trigger] self.mem.live(i) == old.mem.live(i)
        &&& forall|i: int|
            old.mem.live(i) ==> #[trigger] self.mem.objects@[i] == old.mem.objects@[i]
        &&& self.bm.free == old.bm.free
        &&& b1.len() == b0.len()
        &&& forall|j: int|
            0 <= j < b0.len() * 64 ==> #[trigger] bitmap::used(b1, j) == bitmap::used(b0, j)
    }

    /// Whether `pages` frames can be had, adjacent ones if `dma`.
    pub open spec fn frames_for(&self, bits: Seq<u64>, pages: int, dma: bool) -> bool {
        if dma {
            exists|s: int| #[trigger] bitmap::run_at(bits, self.bm.frames as int, s, pages)
        } else {
            pages <= self.bm.free
        }
    }

    /// The rights of whoever creates a memory object.
    pub open spec fn creator_rights(dma: bool) -> Rights {
        if dma {
            Rights(0x3C)
        } else {
            Rights(0x1C)
        }
    }

    /// What creating a memory object does.
    pub open spec fn mem_create_done(
        &self,
        old: &Kernel,
        me: TaskId,
        pages: u64,
        dma: bool,
        b0: Seq<u64>,
        b1: Seq<u64>,
        r: Result<(CapSlot, u32), i64>,
    ) -> bool {
        let caps = old.caps_of(me);
        let limit = if dma {
            MAX_DMA_PAGES
        } else {
            MAX_MEM_PAGES
        };
        if pages == 0 || pages > limit {
            r == Err::<(CapSlot, u32), i64>(EINVAL) && *self == *old && b1
                == b0
        } else if !old.frames_for(b0, pages as int, dma) || !obj::has_room(caps) {
            &&& r == Err::<(CapSlot, u32), i64>(ENOMEM)
            &&& self.table_is(old, me, caps)
            &&& self.same_memory(old, b0, b1)
        } else {
            &&& r matches Ok((slot, id)) && slot == obj::free_slot(caps, 0) && self.table_is(
                old,
                me,
                obj::inserted(
                    caps,
                    Capability { object: Object::Memory(id), rights: Self::creator_rights(dma) },
                ),
            ) && self.created(
                old,
                id,
                pages as int,
                dma,
                b0,
                b1,
            )
        }
    }

    /// Allocate a memory object and a slot for it. Returns the slot, and the
    /// object so that its frames can be cleared.
    pub fn sys_mem_create(&mut self, bits: &mut [u64], me: TaskId, pages: u64, dma: bool) -> (r: Result<
        (CapSlot, u32),
        i64,
    >)
        requires
            old(self).wf(old(bits)@),
            old(self).has_ids(),
            old(self).sched.task(me) is Some,
        ensures
            final(self).wf(final(bits)@),
            final(self).mem_create_done(old(self), me, pages, dma, old(bits)@, final(bits)@, r),
    {
        let limit: u64 = if dma {
            MAX_DMA_PAGES
        } else {
            MAX_MEM_PAGES
        };
        if pages == 0 || pages > limit {
            return Err(EINVAL);
        }
        let ghost none = Seq::<Option<Capability>>::empty();
        let ghost b0 = bits@;
        proof {
            let p = sched::pos(self.sched.tasks@, me, 0);
            sched::lemma_pos(self.sched.tasks@, me, 0);
            assert(self.sched.tasks@ =~= self.sched.tasks@.update(p, self.sched.tasks@[p]));
        }
        let made: Option<u32> = self.mem.create(&mut self.bm, bits, pages as usize, dma);
        let id: u32 = match made {
            None => {
                proof {
                    assert(self.balanced(none)) by {
                        assert forall|i: u32| #[trigger] self.mem.refs(i) == self.holders(i) + count::sum(
                            none,
                            state::slot_weight(i),
                        ) by {
                            assert(old(self).mem.refs(i) == old(self).holders(i) + count::sum(
                                none,
                                state::slot_weight(i),
                            ));
                        }
                    }
                }
                return Err(ENOMEM);
            },
            Some(id) => id,
        };
        let rights: Rights = if dma {
            Rights(0x3C)
        } else {
            Rights(0x1C)
        };
        let c: Capability = Capability { object: Object::Memory(id), rights };
        let ghost k1 = *self;
        let ghost b1 = bits@;
        proof {
            assert forall|i: int| i != id implies #[trigger] self.mem.live(i) == old(self).mem.live(i) by {
                if old(self).mem.live(i) {
                    assert(self.mem.objects@[i] == old(self).mem.objects@[i]);
                }
            }
            assert(self.balanced(none.push(Some(c)))) by {
                assert forall|i: u32| #[trigger] self.mem.refs(i) == self.holders(i) + count::sum(
                    none.push(Some(c)),
                    state::slot_weight(i),
                ) by {
                    assert(old(self).mem.refs(i) == old(self).holders(i) + count::sum(
                        none,
                        state::slot_weight(i),
                    ));
                    count::lemma_sum_push(none, Some(c), state::slot_weight(i));
                    assert(i != id ==> self.mem.live(i as int) == old(self).mem.live(i as int));
                    if i != id && old(self).mem.live(i as int) {
                        assert(self.mem.objects@[i as int] == old(self).mem.objects@[i as int]);
                    }
                }
            }
        }
        match self.give(me, c, Ghost(bits@), Ghost(none)) {
            Some(slot) => Ok((slot, id)),
            None => {
                self.drop_loose(bits, Some(c), Ghost(none));
                proof {
                    assert forall|i: int| #[trigger] self.mem.live(i) == old(self).mem.live(i) by {
                        assert(i != id ==> k1.mem.live(i) == old(self).mem.live(i));
                    }
                    assert forall|i: int|
                        old(self).mem.live(i) implies #[trigger] self.mem.objects@[i] == old(
                        self,
                    ).mem.objects@[i] by {
                        assert(k1.mem.live(i));
                    }
                    assert forall|j: int| 0 <= j < b0.len() * 64 implies #[trigger] bitmap::used(bits@, j)
                        == bitmap::used(b0, j) by {
                        let list = k1.mem.frames_of(id as int);
                        assert(bitmap::used(b1, j) == (bitmap::used(b0, j) || memory::lists(list, j)));
                        if memory::lists(list, j) {
                            let q = choose|q: int|
                                0 <= q < list.len() && #[trigger] list[q] as int / 4096 == j;
                            assert(!bitmap::used(b0, list[q] as int / 4096));
                        }
                    }
                }
                Err(ENOMEM)
            },
        }
    }

    /// The memory object a slot of task `me` gives `rights` on.
    pub open spec fn memory_in(&self, me: TaskId, slot: u64, rights: u32) -> Option<u32> {
        match obj::usable_slot(self.caps_of(me), abi::low32(slot), Rights(rights)) {
            Some(Capability { object: Object::Memory(id), .. }) => Some(id),
            _ => None,
        }
    }

    /// Where to map the memory object in a slot: the object, the address, its
    /// pages and whether it may be written.
    pub open spec fn map_request(&self, me: TaskId, slot: u64, writable: bool) -> Result<Mapping, i64> {
        let need = if writable {
            0x18u32
        } else {
            RIGHT_MAP_READ
        };
        match self.memory_in(me, slot, need) {
            None => Err(EPERM),
            Some(id) => {
                let pages = self.mem.frames_of(id as int).len();
                match task::next_place(self.sched.task(me)->0.maps@, pages as int) {
                    None => Err(ENOMEM),
                    Some(base) => Ok(Mapping { object: id, base, pages: pages as u64, writable }),
                }
            },
        }
    }

    /// Decide where a memory object is mapped into the caller's address space.
    /// The caller then maps its frames and reports back with
    /// [`Kernel::mem_mapped`].
    pub fn sys_mem_map(&self, bits: &[u64], me: TaskId, slot: u64, writable: u64) -> (r: Result<Mapping, i64>)
        requires
            self.wf(bits@),
            self.sched.task(me) is Some,
        ensures
            r == self.map_request(me, slot, writable != 0),
            r matches Ok(m) ==> {
                &&& self.mem.live(m.object as int)
                &&& m.writable == (writable != 0)
                &&& m.pages == self.mem.frames_of(m.object as int).len()
                &&& obj::in_slot(self.caps_of(me), abi::low32(slot)) matches Some(c) && c.object == Object::Memory(
                    m.object,
                ) && (m.writable ==> c.rights.has(Rights(RIGHT_MAP_WRITE)))
            },
    {
        let writable: bool = writable != 0;
        let need: u32 = if writable {
            0x18
        } else {
            RIGHT_MAP_READ
        };
        let p: usize = self.sched.find(me);
        let c: Capability = match self.sched.tasks[p].caps.lookup(slot_of(slot), Rights(need)) {
            None => {
                return Err(EPERM);
            },
            Some(c) => c,
        };
        let id: u32 = match c.memory() {
            None => {
                return Err(EPERM);
            },
            Some(id) => id,
        };
        proof {
            self.lemma_held_live(bits@, Seq::empty(), me, abi::low32(slot));
            memory::lemma_fits(&self.mem, id as int, bits@, self.bm.frames as int);
            assert(self.sched.tasks@[p as int].caps.wf());
            let x = c.rights.0;
            assert(x & 0x18 == 0x18 ==> x & 0x10 == 0x10) by (bit_vector);
        }
        let pages: u64 = match &self.mem.objects[id as usize] {
            None => 0,
            Some(o) => o.object.pages() as u64,
        };
        match self.sched.tasks[p].place(pages) {
            None => Err(ENOMEM),
            Some(base) => Ok(Mapping { object: id, base, pages, writable }),
        }
    }

    /// Record that a memory object was mapped where [`Kernel::sys_mem_map`] said.
    /// Returns its address.
    pub fn mem_mapped(&mut self, bits: &[u64], me: TaskId, m: Mapping) -> (r: i64)
        requires
            old(self).wf(bits@),
            old(self).can_count(),
            old(self).sched.task(me) is Some,
            old(self).mem.live(m.object as int),
            task::next_place(old(self).sched.task(me)->0.maps@, m.pages as int) == Some(m.base),
        ensures
            final(self).wf(bits@),
            r == m.base,
            final(self).eps == old(self).eps,
            final(self).services == old(self).services,
            final(self).copied(
                old(self),
                Capability { object: Object::Memory(m.object), rights: Rights(0) },
            ),
            ({
                let p = sched::pos(old(self).sched.tasks@, me, 0);
                let t0 = old(self).sched.tasks@[p];
                let t1 = final(self).sched.tasks@[p];
                &&& final(self).sched.tasks@ == old(self).sched.tasks@.update(p, t1)
                &&& t1 == Task { maps: t1.maps, ..t0 }
                &&& t1.maps@ == t0.maps@.push(m)
                &&& final(self).sched.ready@ == old(self).sched.ready@
                &&& final(self).sched.reap@ == old(self).sched.reap@
                &&& final(self).sched.next_id == old(self).sched.next_id
                &&& final(self).sched.supervisor == old(self).sched.supervisor
            }),
    {
        let ghost none = Seq::<Option<Capability>>::empty();
        let c: Capability = Capability { object: Object::Memory(m.object), rights: Rights(0) };
        self.copy_loose(c, Ghost(bits@), Ghost(none));
        let ghost k1 = *self;
        let p: usize = self.sched.find(me);
        let ghost t0 = self.sched.tasks@[p as int];
        assert(t0.caps.wf());
        self.sched.tasks[p].maps.push(m);
        let ghost t1 = self.sched.tasks@[p as int];
        proof {
            task::lemma_place_apart(t0.maps@, m);
            sched::lemma_task_changed(&k1.sched, &self.sched, p as int);
            self.lemma_kept(&k1, p as int);
            assert(self.balanced(none)) by {
                assert forall|id: u32| #[trigger] self.mem.refs(id) == self.holders(id) + count::sum(
                    none,
                    state::slot_weight(id),
                ) by {
                    assert(k1.mem.refs(id) == k1.holders(id) + count::sum(
                        none.push(Some(c)),
                        state::slot_weight(id),
                    ));
                    count::lemma_sum_push(none, Some(c), state::slot_weight(id));
                    count::lemma_sum_push(t0.maps@, m, state::map_weight(id));
                    count::lemma_sum_update(k1.sched.tasks@, p as int, t1, state::task_weight(id));
                }
            }
        }
        m.base as i64
    }

    /// What asking for a physical address returns.
    pub open spec fn phys_is(&self, me: TaskId, slot: u64, r: i64) -> bool {
        match obj::usable_slot(self.caps_of(me), abi::low32(slot), Rights(RIGHT_DMA)) {
            None => r == EPERM,
            Some(Capability { object: Object::Memory(id), .. }) => {
                let list = self.mem.frames_of(id as int);
                r == if list.len() == 0 {
                    EINVAL as int
                } else {
                    list[0] as int
                }
            },
            _ => r == EINVAL,
        }
    }

    /// Physical address of a memory object that may be used for DMA.
    pub fn sys_mem_phys(&self, bits: &[u64], me: TaskId, slot: u64) -> (r: i64)
        requires
            self.wf(bits@),
            self.sched.task(me) is Some,
        ensures
            self.phys_is(me, slot, r),
    {
        let p: usize = self.sched.find(me);
        let c: Capability = match self.sched.tasks[p].caps.lookup(slot_of(slot), Rights(RIGHT_DMA)) {
            None => {
                return EPERM;
            },
            Some(c) => c,
        };
        let id: u32 = match c.memory() {
            None => {
                return EINVAL;
            },
            Some(id) => id,
        };
        proof {
            self.lemma_held_live(bits@, Seq::empty(), me, abi::low32(slot));
        }
        match &self.mem.objects[id as usize] {
            None => EINVAL,
            Some(o) => {
                if o.object.frames.len() == 0 {
                    return EINVAL;
                }
                proof {
                    assert(self.mem.objects@[id as int] is Some);
                    assert(memory::held(
                        self.mem.frames_of(id as int)[0],
                        bits@,
                        self.bm.frames as int,
                    ));
                }
                o.object.frames[0] as i64
            },
        }
    }

    /// What creating an endpoint does.
    pub open spec fn ep_create_done(&self, old: &Kernel, me: TaskId, r: i64) -> bool {
        let caps = old.caps_of(me);
        let c = Capability {
            object: Object::Endpoint(old.eps.eps@.len() as u32),
            rights: Rights(0x07),
        };
        let e = self.eps.eps@.last();
        &&& self.mem == old.mem
        &&& self.bm == old.bm
        &&& self.services == old.services
        &&& self.eps.eps@ == old.eps.eps@.push(e)
        &&& e.queue@.len() == 0
        &&& e.receivers@.len() == 0
        &&& e.peer is None
        &&& if obj::has_room(caps) {
            r == obj::free_slot(caps, 0) && self.holds_now(old, me, obj::inserted(caps, c))
        } else {
            r == ENOMEM && self.holds_now(old, me, caps)
        }
    }

    /// Create an endpoint the caller owns.
    pub fn sys_ep_create(&mut self, bits: &[u64], me: TaskId) -> (r: i64)
        requires
            old(self).wf(bits@),
            old(self).has_ids(),
            old(self).sched.task(me) is Some,
        ensures
            final(self).wf(bits@),
            final(self).ep_create_done(old(self), me, r),
    {
        let ghost none = Seq::<Option<Capability>>::empty();
        let e: u32 = self.eps.create();
        let c: Capability = Capability { object: Object::Endpoint(e), rights: Rights(0x07) };
        assert(self.eps.eps@ =~= old(self).eps.eps@.push(self.eps.eps@.last()));
        proof {
            assert(self.balanced(none.push(Some(c)))) by {
                assert forall|id: u32| #[trigger] self.mem.refs(id) == self.holders(id) + count::sum(
                    none.push(Some(c)),
                    state::slot_weight(id),
                ) by {
                    assert(old(self).mem.refs(id) == old(self).holders(id) + count::sum(
                        none,
                        state::slot_weight(id),
                    ));
                    count::lemma_sum_push(none, Some(c), state::slot_weight(id));
                    let es = self.eps.eps@;
                    assert(es =~= old(self).eps.eps@.push(es.last()));
                    count::lemma_sum_push(old(self).eps.eps@, es.last(), state::ep_weight(id));
                    assert(es.last().queue@ =~= Seq::empty());
                }
            }
        }
        match self.give(me, c, Ghost(bits@), Ghost(none)) {
            Some(slot) => slot as i64,
            None => {
                proof {
                    assert(self.balanced(none)) by {
                        assert forall|id: u32| #[trigger] self.mem.refs(id) == self.holders(id) + count::sum(
                            none,
                            state::slot_weight(id),
                        ) by {
                            assert(self.mem.refs(id) == self.holders(id) + count::sum(
                                none.push(Some(c)),
                                state::slot_weight(id),
                            ));
                            count::lemma_sum_push(none, Some(c), state::slot_weight(id));
                        }
                    }
                }
                ENOMEM
            },
        }
    }
}

/// Delivering a message moves its capability into an inbox or a queue, and
/// nothing else.
proof fn lemma_delivered_counts(
    k0: &Kernel,
    k1: &Kernel,
    t: int,
    msg: Message,
    r: Result<(), IpcError>,
)
    requires
        k0.sched.wf(),
        k0.tables_ok(),
        k0.inboxes_ok(),
        0 <= t < k0.eps.eps@.len(),
        k1.services == k0.services,
        k1.eps.eps@ == k0.eps.eps@.update(t, k1.eps.eps@[t]),
        k1.eps.eps@[t].delivered(&k0.eps.eps@[t], msg, &k0.sched, &k1.sched, r),
    ensures
        k1.tables_ok(),
        k1.inboxes_ok(),
        forall|id: u32| #[trigger]
            k1.holders(id) == k0.holders(id) + if r is Ok {
                state::slot_refs(msg.cap, id)
            } else {
                0
            },
        forall|id: TaskId| k0.sched.task(id) is Some ==> #[trigger] k1.sched.task(id) is Some,
{
    let ts = k0.sched.tasks@;
    let e0 = k0.eps.eps@[t];
    let e1 = k1.eps.eps@[t];
    let k = ipc::first_blocked(ts, e0.receivers@, 0);
    ipc::lemma_first_blocked(ts, e0.receivers@, 0);
    if k < e0.receivers@.len() {
        let rx = e0.receivers@[k];
        let p = sched::pos(ts, rx, 0);
        sched::lemma_pos(ts, rx, 0);
        k1.lemma_kept(k0, p);
        sched::lemma_found_same(ts, k1.sched.tasks@, p);
        assert forall|id: u32| #[trigger] k1.holders(id) == k0.holders(id) + state::slot_refs(msg.cap, id) by {
            count::lemma_sum_update(ts, p, k1.sched.tasks@[p], state::task_weight(id));
            count::lemma_sum_update(k0.eps.eps@, t, e1, state::ep_weight(id));
        }
    } else {
        assert forall|id: u32| #[trigger] k1.holders(id) == k0.holders(id) + if r is Ok {
            state::slot_refs(msg.cap, id)
        } else {
            0
        } by {
            count::lemma_sum_update(k0.eps.eps@, t, e1, state::ep_weight(id));
            if r is Ok {
                count::lemma_sum_push(e0.queue@, msg, state::msg_weight(id));
            }
        }
    }
}

} // verus!
