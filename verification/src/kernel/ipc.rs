//! Message-passing endpoints: the only way tasks talk to each other, to
//! drivers, or receive device interrupts. A message may carry one capability,
//! which is how authority is delegated between tasks.
use std::collections::VecDeque;

use vstd::prelude::*;

use crate::kernel::message::Message;
use crate::kernel::sched;
use crate::kernel::sched::Scheduler;
use crate::kernel::task::{State, Task, TaskId};

verus! {

/// Messages an endpoint holds for receivers to come.
pub const QUEUE_LIMIT: usize = 64;

pub struct Endpoint {
    pub queue: VecDeque<Message>,
    pub receivers: VecDeque<TaskId>,
    /// The other half of a connected pair, if this endpoint has one. Sending
    /// delivers to the peer's queue.
    pub peer: Option<u32>,
}

#[derive(Clone, Copy, Debug, PartialEq, Eq, Structural)]
pub enum IpcError {
    QueueFull,
}

/// The kernel's endpoints, by number.
pub struct Endpoints {
    pub eps: Vec<Endpoint>,
}

/// Task `id` exists and is blocked.
pub open spec fn is_blocked(ts: Seq<Task>, id: TaskId) -> bool {
    sched::pos(ts, id, 0) < ts.len() && ts[sched::pos(ts, id, 0)].state == State::Blocked
}

/// First position in the list, at or after `i`, of a task that is blocked, or
/// the length.
pub open spec fn first_blocked(ts: Seq<Task>, list: Seq<TaskId>, i: int) -> int
    decreases list.len() - i,
{
    if i >= list.len() {
        list.len() as int
    } else if is_blocked(ts, list[i]) {
        i
    } else {
        first_blocked(ts, list, i + 1)
    }
}

impl Endpoint {
    pub fn new() -> (r: Self)
        ensures
            r.queue@.len() == 0,
            r.receivers@.len() == 0,
            r.peer is None,
    {
        Endpoint { queue: VecDeque::new(), receivers: VecDeque::new(), peer: None }
    }

    /// `self` is `old` after `msg` was delivered to it, with the tasks going
    /// from `s0` to `s1`: straight into the inbox of the first receiver that is
    /// blocked, which is woken, or else into the queue, unless that is full.
    /// Receivers that are gone or no longer blocked are forgotten.
    pub open spec fn delivered(
        &self,
        old: &Endpoint,
        msg: Message,
        s0: &Scheduler,
        s1: &Scheduler,
        r: Result<(), IpcError>,
    ) -> bool {
        let k = first_blocked(s0.tasks@, old.receivers@, 0);
        &&& self.peer == old.peer
        &&& s1.reap@ == s0.reap@
        &&& s1.next_id == s0.next_id
        &&& s1.supervisor == s0.supervisor
        &&& if k < old.receivers@.len() {
            let rx = old.receivers@[k];
            let p = sched::pos(s0.tasks@, rx, 0);
            let t = s0.tasks@[p];
            &&& r is Ok
            &&& self.queue@ == old.queue@
            &&& self.receivers@ == old.receivers@.subrange(k + 1, old.receivers@.len() as int)
            &&& s1.tasks@ == s0.tasks@.update(
                p,
                Task { ipc_inbox: Some(msg), state: State::Ready, ..t },
            )
            &&& s1.ready@ == if t.on_cpu is None {
                s0.ready@.push(rx)
            } else {
                s0.ready@
            }
        } else {
            &&& self.receivers@.len() == 0
            &&& s1.tasks@ == s0.tasks@
            &&& s1.ready@ == s0.ready@
            &&& if old.queue@.len() >= QUEUE_LIMIT {
                r == Err::<(), IpcError>(IpcError::QueueFull) && self.queue@ == old.queue@
            } else {
                r is Ok && self.queue@ == old.queue@.push(msg)
            }
        }
    }

    /// Deliver a message. Never blocks the sender.
    pub fn deliver(&mut self, msg: Message, s: &mut Scheduler) -> (r: Result<(), IpcError>)
        requires
            old(s).wf(),
        ensures
            final(s).wf(),
            final(self).delivered(old(self), msg, old(s), final(s), r),
    {
        let ghost list = self.receivers@;
        let ghost ts = s.tasks@;
        let ghost mut i: int = 0;
        while self.receivers.len() > 0
            invariant
                *s == *old(s),
                s.wf(),
                ts == s.tasks@,
                list == old(self).receivers@,
                self.peer == old(self).peer,
                self.queue@ == old(self).queue@,
                0 <= i <= list.len(),
                self.receivers@ == list.subrange(i, list.len() as int),
                first_blocked(ts, list, 0) == first_blocked(ts, list, i),
            decreases self.receivers@.len(),
        {
            let popped: Option<TaskId> = self.receivers.pop_front();
            if let Some(rx) = popped {
                assert(rx == list[i]);
                assert(self.receivers@ =~= list.subrange(i + 1, list.len() as int));
                let p: usize = s.find(rx);
                if p < s.tasks.len() {
                    let st: State = s.tasks[p].state;
                    if st == State::Blocked {
                        s.put_inbox(rx, Some(msg));
                        let ghost m = *s;
                        s.wake(rx);
                        proof {
                            assert(sched::pos(m.tasks@, rx, 0) == p);
                            assert(s.tasks@ =~= ts.update(
                                p as int,
                                Task { ipc_inbox: Some(msg), state: State::Ready, ..ts[p as int] },
                            ));
                        }
                        return Ok(());
                    }
                }
                proof {
                    i = i + 1;
                }
            }
        }
        if self.queue.len() >= QUEUE_LIMIT {
            return Err(IpcError::QueueFull);
        }
        self.queue.push_back(msg);
        Ok(())
    }

    /// Take the oldest message, or register `me` as a receiver and mark it
    /// blocked. The caller of a registered receiver switches away, and finds
    /// the message in its inbox once it runs again.
    pub fn recv(&mut self, me: TaskId, s: &mut Scheduler) -> (r: Option<Message>)
        requires
            old(s).wf(),
            old(s).task(me) is Some,
        ensures
            final(s).wf(),
            final(self).peer == old(self).peer,
            old(self).queue@.len() > 0 ==> {
                &&& r == Some(old(self).queue@[0])
                &&& final(self).queue@ == old(self).queue@.subrange(1, old(self).queue@.len() as int)
                &&& final(self).receivers@ == old(self).receivers@
                &&& *final(s) == *old(s)
            },
            old(self).queue@.len() == 0 ==> {
                &&& r is None
                &&& final(self).queue@ == old(self).queue@
                &&& final(self).receivers@ == old(self).receivers@.push(me)
                &&& final(s).tasks@ == old(s).tasks@.update(
                    sched::pos(old(s).tasks@, me, 0),
                    Task { ipc_inbox: None, state: State::Blocked, ..old(s).task(me)->0 },
                )
                &&& final(s).ready@ == old(s).ready@
                &&& final(s).reap@ == old(s).reap@
                &&& final(s).next_id == old(s).next_id
                &&& final(s).supervisor == old(s).supervisor
            },
    {
        if self.queue.len() > 0 {
            let m: Option<Message> = self.queue.pop_front();
            return m;
        }
        let ghost ts = s.tasks@;
        self.receivers.push_back(me);
        proof {
            sched::lemma_pos(ts, me, 0);
        }
        s.put_inbox(me, None);
        s.mark_blocked(me);
        assert(s.tasks@ =~= ts.update(
            sched::pos(ts, me, 0),
            Task { ipc_inbox: None, state: State::Blocked, ..ts[sched::pos(ts, me, 0)] },
        ));
        None
    }
}

impl Endpoints {
    /// Connected halves know each other, and no queue is over its limit.
    pub open spec fn wf(&self) -> bool {
        &&& self.eps@.len() <= u32::MAX
        &&& forall|i: int|
            0 <= i < self.eps@.len() ==> {
                &&& (#[trigger] self.eps@[i]).queue@.len() <= QUEUE_LIMIT
                &&& self.eps@[i].peer matches Some(j) ==> j < self.eps@.len() && self.eps@[j as int].peer
                    == Some(i as u32)
            }
    }

    /// Where a message sent on endpoint `id` goes: to its peer, if it has one.
    pub open spec fn target(&self, id: u32) -> u32 {
        match self.eps@[id as int].peer {
            Some(p) => p,
            None => id,
        }
    }

    pub fn new() -> (r: Self)
        ensures
            r.wf(),
            r.eps@.len() == 0,
    {
        Endpoints { eps: Vec::new() }
    }

    /// A new endpoint; returns its number.
    pub fn create(&mut self) -> (id: u32)
        requires
            old(self).wf(),
            old(self).eps@.len() < u32::MAX,
        ensures
            final(self).wf(),
            id == old(self).eps@.len(),
            final(self).eps@.len() == id + 1,
            final(self).eps@.drop_last() == old(self).eps@,
            final(self).eps@[id as int].queue@.len() == 0,
            final(self).eps@[id as int].receivers@.len() == 0,
            final(self).eps@[id as int].peer is None,
    {
        let id: u32 = self.eps.len() as u32;
        self.eps.push(Endpoint::new());
        proof {
            assert(self.eps@.drop_last() =~= old(self).eps@);
            assert forall|i: int| 0 <= i < self.eps@.len() implies {
                &&& (#[trigger] self.eps@[i]).queue@.len() <= QUEUE_LIMIT
                &&& self.eps@[i].peer matches Some(j) ==> j < self.eps@.len() && self.eps@[j as int].peer
                    == Some(i as u32)
            } by {
                if i < id {
                    assert(self.eps@[i] == old(self).eps@[i]);
                }
            }
        }
        id
    }

    /// A connected pair: sending on one half delivers to the other half's
    /// queue. This is what lets a server keep the receiving half and hand out
    /// the sending half: two different objects, so the rights on each can stay
    /// one-directional instead of being intersected into nothing.
    pub fn new_pair(&mut self) -> (r: (u32, u32))
        requires
            old(self).wf(),
            old(self).eps@.len() + 1 < u32::MAX,
        ensures
            final(self).wf(),
            r.0 == old(self).eps@.len(),
            r.1 == r.0 + 1,
            final(self).eps@.len() == r.1 + 1,
            forall|i: int|
                0 <= i < old(self).eps@.len() ==> #[trigger] final(self).eps@[i] == old(self).eps@[i],
            final(self).target(r.0) == r.1,
            final(self).target(r.1) == r.0,
            final(self).eps@[r.0 as int].queue@.len() == 0,
            final(self).eps@[r.1 as int].queue@.len() == 0,
            final(self).eps@[r.0 as int].receivers@.len() == 0,
            final(self).eps@[r.1 as int].receivers@.len() == 0,
    {
        let a: u32 = self.create();
        let b: u32 = self.create();
        let ghost e1 = self.eps@;
        proof {
            assert forall|i: int| 0 <= i < old(self).eps@.len() implies #[trigger] e1[i] == old(
                self,
            ).eps@[i] by {
                assert(e1.drop_last()[i] == e1[i]);
                assert(e1.drop_last().drop_last()[i] == e1[i]);
            }
        }
        self.eps[a as usize].peer = Some(b);
        self.eps[b as usize].peer = Some(a);
        proof {
            assert forall|i: int| 0 <= i < self.eps@.len() implies {
                &&& (#[trigger] self.eps@[i]).queue@.len() <= QUEUE_LIMIT
                &&& self.eps@[i].peer matches Some(j) ==> j < self.eps@.len() && self.eps@[j as int].peer
                    == Some(i as u32)
            } by {
                if i < a {
                    assert(self.eps@[i] == old(self).eps@[i]);
                }
            }
        }
        (a, b)
    }

    /// Send a message on endpoint `id`.
    pub fn send(&mut self, id: u32, msg: Message, s: &mut Scheduler) -> (r: Result<(), IpcError>)
        requires
            old(self).wf(),
            id < old(self).eps@.len(),
            old(s).wf(),
        ensures
            final(self).wf(),
            final(s).wf(),
            ({
                let t = old(self).target(id) as int;
                &&& final(self).eps@ == old(self).eps@.update(t, final(self).eps@[t])
                &&& final(self).eps@[t].delivered(&old(self).eps@[t], msg, old(s), final(s), r)
            }),
    {
        let t: u32 = match self.eps[id as usize].peer {
            Some(p) => p,
            None => id,
        };
        let ghost e0 = self.eps@;
        assert(e0[id as int].queue@.len() <= QUEUE_LIMIT);
        let r: Result<(), IpcError> = self.eps[t as usize].deliver(msg, s);
        proof {
            assert(self.eps@ =~= e0.update(t as int, self.eps@[t as int]));
            assert forall|i: int| 0 <= i < self.eps@.len() implies {
                &&& (#[trigger] self.eps@[i]).queue@.len() <= QUEUE_LIMIT
                &&& self.eps@[i].peer matches Some(j) ==> j < self.eps@.len() && self.eps@[j as int].peer
                    == Some(i as u32)
            } by {
                assert(e0[i].queue@.len() <= QUEUE_LIMIT);
            }
        }
        r
    }
}

/// Nothing is lost: a message that was accepted is in the inbox of a task that
/// waited for it and is now ready to run, or last in the queue.
pub proof fn lemma_accepted(
    e0: &Endpoint,
    e1: &Endpoint,
    msg: Message,
    s0: &Scheduler,
    s1: &Scheduler,
)
    requires
        s0.wf(),
        e1.delivered(e0, msg, s0, s1, Ok::<(), IpcError>(())),
    ensures
        e1.queue@ == e0.queue@.push(msg) || exists|p: int|
            0 <= p < s1.tasks@.len() && (#[trigger] s1.tasks@[p]).ipc_inbox == Some(msg)
                && s1.tasks@[p].state == State::Ready && e0.receivers@.contains(s1.tasks@[p].id),
{
    let ts = s0.tasks@;
    let k = first_blocked(ts, e0.receivers@, 0);
    lemma_first_blocked(ts, e0.receivers@, 0);
    if k < e0.receivers@.len() {
        let rx = e0.receivers@[k];
        let p = sched::pos(ts, rx, 0);
        sched::lemma_pos(ts, rx, 0);
        assert(s1.tasks@[p].ipc_inbox == Some(msg));
        assert(s1.tasks@[p].id == rx);
    }
}

pub proof fn lemma_first_blocked(ts: Seq<Task>, list: Seq<TaskId>, i: int)
    requires
        0 <= i <= list.len(),
    ensures
        i <= first_blocked(ts, list, i) <= list.len(),
        first_blocked(ts, list, i) < list.len() ==> is_blocked(ts, list[first_blocked(ts, list, i)]),
        forall|k: int| i <= k < first_blocked(ts, list, i) ==> !is_blocked(ts, #[trigger] list[k]),
    decreases list.len() - i,
{
    if i < list.len() && !is_blocked(ts, list[i]) {
        lemma_first_blocked(ts, list, i + 1);
    }
}

/// No wake-up is lost: as long as a receiver is blocked on an endpoint, a message
/// never waits in its queue but goes straight to a blocked receiver, which can
/// run again.
pub proof fn lemma_no_lost_wakeup(
    e0: &Endpoint,
    e1: &Endpoint,
    msg: Message,
    s0: &Scheduler,
    s1: &Scheduler,
    r: Result<(), IpcError>,
    i: int,
)
    requires
        s0.wf(),
        e1.delivered(e0, msg, s0, s1, r),
        0 <= i < e0.receivers@.len(),
        is_blocked(s0.tasks@, e0.receivers@[i]),
    ensures
        r is Ok,
        e1.queue@ == e0.queue@,
        exists|p: int|
            0 <= p < s1.tasks@.len() && s0.tasks@[p].state == State::Blocked && (#[trigger] s1.tasks@[p])
                == (Task { ipc_inbox: Some(msg), state: State::Ready, ..s0.tasks@[p] })
                && e0.receivers@.contains(s1.tasks@[p].id),
{
    let ts = s0.tasks@;
    let k = first_blocked(ts, e0.receivers@, 0);
    lemma_first_blocked(ts, e0.receivers@, 0);
    assert(k <= i) by {
        if k > i {
            assert(!is_blocked(ts, e0.receivers@[i]));
        }
    }
    let p = sched::pos(ts, e0.receivers@[k], 0);
    sched::lemma_pos(ts, e0.receivers@[k], 0);
    assert(s1.tasks@[p].id == e0.receivers@[k]);
}

} // verus!
