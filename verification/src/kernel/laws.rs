//! What a task can rely on when it makes a system call, told from the slots of
//! its own table.
use vstd::prelude::*;

use crate::kernel::dispatch::Action;
use crate::kernel::ipc;
use crate::kernel::irq;
use crate::kernel::irq::{IrqObject, IrqTable};
use crate::kernel::message::Message;
use crate::kernel::obj;
use crate::kernel::obj::{Capability, Object, Rights};
use crate::kernel::reap::Dead;
use crate::kernel::sched;
use crate::kernel::state;
use crate::kernel::state::Kernel;
use crate::kernel::syscall::{Received, EAGAIN};
use crate::kernel::task;
use crate::kernel::task::{Mapping, State, Task, TaskId};
use crate::rt::abi;
use crate::rt::abi::NO_CAP;
use crate::rt::calls::{SYS_EXIT, SYS_LOG, SYS_MEM_MAP, SYS_SLEEP};

verus! {

/// The capability in a slot of a task's table. Slots are numbered by the low 32
/// bits of a word.
pub open spec fn held_in(t: Task, slot: u64) -> Option<Capability> {
    let i = slot as int % 0x1_0000_0000;
    if i < t.caps@.len() {
        t.caps@[i]
    } else {
        None
    }
}

/// Whether a capability allows everything in `bits`.
pub open spec fn allows(c: Capability, bits: u32) -> bool {
    c.rights.0 & bits == bits
}

/// A call comes to nothing but this value.
pub open spec fn comes_to(r: Action, v: int) -> bool {
    r is Return && r->Return_0 == v
}

proof fn lemma_both(x: u32)
    ensures
        x & 0x18 == 0x18 <==> x & 0x08 == 0x08 && x & 0x10 == 0x10,
        x & 0 == 0,
{
    assert((x & 0x18 == 0x18 <==> x & 0x08 == 0x08 && x & 0x10 == 0x10) && x & 0 == 0) by (bit_vector);
}

/// What task `me` finds in a slot is what its table holds there, if that allows
/// what is asked for.
proof fn lemma_slot(k: &Kernel, me: TaskId, p: int, slot: u64, rights: u32)
    requires
        k.sched.wf(),
        0 <= p < k.sched.tasks@.len(),
        k.sched.tasks@[p].id == me,
    ensures
        k.sched.task(me) == Some(k.sched.tasks@[p]),
        sched::pos(k.sched.tasks@, me, 0) == p,
        k.caps_of(me) == k.sched.tasks@[p].caps@,
        obj::usable_slot(k.caps_of(me), abi::low32(slot), Rights(rights)) == match held_in(
            k.sched.tasks@[p],
            slot,
        ) {
            Some(c) => if allows(c, rights) {
                Some(c)
            } else {
                None
            },
            None => None,
        },
        k.slot_in(me, slot, rights) == obj::usable_slot(k.caps_of(me), abi::low32(slot), Rights(rights)),
{
    sched::lemma_sorted_pos(k.sched.tasks@, p);
}

/// A mapping is of the object in the slot, all of it, writable if and only if that
/// was asked for; it needs the right to read, and to be writable the right to
/// write as well. It lies behind every other mapping of the task. Nothing but
/// missing rights and want of address space is in the way.
pub proof fn lemma_mapped_as_asked(
    k: &Kernel,
    bits: Seq<u64>,
    me: TaskId,
    p: int,
    slot: u64,
    writable: bool,
    r: Result<Mapping, i64>,
)
    requires
        k.wf(bits),
        0 <= p < k.sched.tasks@.len(),
        k.sched.tasks@[p].id == me,
        r == k.map_request(me, slot, writable),
    ensures
        ({
            let t = k.sched.tasks@[p];
            let had = held_in(t, slot);
            let end = if t.maps@.len() == 0 {
                0x10_0000_0000
            } else {
                t.maps@.last().base + t.maps@.last().pages * 4096
            };
            match r {
                Ok(m) => {
                    &&& m.writable == writable
                    &&& had matches Some(c) && c.object == Object::Memory(m.object) && allows(c, 0x08) && (m.writable
                        ==> allows(c, 0x10))
                    &&& m.pages == k.mem.objects@[m.object as int]->0.object.frames@.len()
                    &&& m.base == end
                    &&& m.base + m.pages * 4096 <= 0x4000_0000_0000
                    &&& forall|i: int|
                        0 <= i < t.maps@.len() ==> (#[trigger] t.maps@[i]).base + t.maps@[i].pages * 4096 <= m.base
                },
                Err(e) => {
                    ||| e == -1 && (had matches Some(c) ==> !(c.object is Memory) || !allows(c, 0x08) || writable
                        && !allows(c, 0x10))
                    ||| e == -6 && end + k.mem.objects@[had->0.object->Memory_0 as int]->0.object.frames@.len() * 4096
                        > 0x4000_0000_0000
                },
            }
        }),
{
    let need: u32 = if writable {
        0x18u32
    } else {
        0x08u32
    };
    lemma_slot(k, me, p, slot, need);
    let t = k.sched.tasks@[p];
    assert(task::maps_ok(t.maps@));
    if let Some(c) = held_in(t, slot) {
        lemma_both(c.rights.0);
        k.lemma_held_live(bits, Seq::empty(), me, abi::low32(slot));
        if let Object::Memory(id) = c.object {
            crate::kernel::memory::lemma_fits(&k.mem, id as int, bits, k.bm.frames as int);
        }
    }
    if t.maps@.len() > 0 {
        assert(t.maps@[t.maps@.len() - 1].end() <= task::SHARED_LIMIT);
    }
}

/// Message `m` is from task `me` and carries these words and this capability.
pub open spec fn says(m: Message, me: TaskId, w0: u64, w1: u64, w2: u64, cap: Option<Capability>) -> bool {
    m.sender == me && m.words@[0] == w0 && m.words@[1] == w1 && m.words@[2] == w2 && m.cap == cap
}

/// Task `id` waits for a message.
pub open spec fn waits(k: &Kernel, id: TaskId) -> bool {
    k.sched.task(id) is Some && k.sched.task(id)->0.state == State::Blocked
}

/// From `k0` to `k1` a message was sent on endpoint `e`. It goes to the other half
/// if the endpoint has one.
pub open spec fn went_out(
    k0: &Kernel,
    k1: &Kernel,
    e: u32,
    me: TaskId,
    w0: u64,
    w1: u64,
    w2: u64,
    cap: Option<Capability>,
    r: i64,
) -> bool {
    &&& k0.eps.eps@[e as int].peer matches Some(other) ==> went_to(k0, k1, other as int, me, w0, w1, w2, cap, r)
    &&& k0.eps.eps@[e as int].peer is None ==> went_to(k0, k1, e as int, me, w0, w1, w2, cap, r)
}

/// From `k0` to `k1` a message went to endpoint `t`: to the task that waits there
/// longest, which can run then, or else behind all other messages. Only 64
/// messages that nobody waits for are in its way. No other endpoint and no other
/// task notices.
pub open spec fn went_to(
    k0: &Kernel,
    k1: &Kernel,
    t: int,
    me: TaskId,
    w0: u64,
    w1: u64,
    w2: u64,
    cap: Option<Capability>,
    r: i64,
) -> bool {
    let e0 = k0.eps.eps@[t];
    let e1 = k1.eps.eps@[t];
    let ts = k0.sched.tasks@;
    &&& r == 0 || r == -2
    &&& k1.eps.eps@.len() == k0.eps.eps@.len()
    &&& forall|i: int| 0 <= i < k0.eps.eps@.len() && i != t ==> #[trigger] k1.eps.eps@[i] == k0.eps.eps@[i]
    &&& e1.peer == e0.peer
    &&& k1.sched.tasks@.len() == ts.len()
    &&& (forall|i: int| 0 <= i < e0.receivers@.len() ==> !waits(k0, #[trigger] e0.receivers@[i])) ==> {
        &&& k1.sched.tasks@ == ts
        &&& k1.sched.ready@ == k0.sched.ready@
        &&& e1.receivers@.len() == 0
        &&& r == -2 <==> e0.queue@.len() == 64
        &&& r == -2 ==> e1.queue@ == e0.queue@
        &&& r == 0 ==> e1.queue@.len() == e0.queue@.len() + 1 && e1.queue@.drop_last() == e0.queue@ && says(
            e1.queue@.last(),
            me,
            w0,
            w1,
            w2,
            cap,
        )
    }
    &&& forall|i: int, j: int|
        #![trigger e0.receivers@[i], ts[j]]
        0 <= i < e0.receivers@.len() && 0 <= j < ts.len() && ts[j].id == e0.receivers@[i] && ts[j].state
            == State::Blocked && (forall|a: int| 0 <= a < i ==> !waits(k0, #[trigger] e0.receivers@[a])) ==> {
            &&& r == 0
            &&& e1.queue@ == e0.queue@
            &&& e1.receivers@ == e0.receivers@.skip(i + 1)
            &&& k1.sched.tasks@[j].state == State::Ready
            &&& k1.sched.tasks@[j].ipc_inbox matches Some(m) && says(m, me, w0, w1, w2, cap)
            &&& ts[j].on_cpu is None ==> k1.sched.ready@ == k0.sched.ready@.push(ts[j].id)
            &&& forall|b: int| 0 <= b < ts.len() && b != j ==> #[trigger] k1.sched.tasks@[b] == ts[b]
        }
}

proof fn lemma_went_out(
    k0: &Kernel,
    k1: &Kernel,
    bits: Seq<u64>,
    e: u32,
    msg: Message,
    me: TaskId,
    w0: u64,
    w1: u64,
    w2: u64,
    r: i64,
)
    requires
        k0.wf(bits),
        e < k0.eps.eps@.len(),
        k1.sent(k0, e, msg, r),
        says(msg, me, w0, w1, w2, msg.cap),
    ensures
        went_out(k0, k1, e, me, w0, w1, w2, msg.cap, r),
{
    let t = k0.eps.target(e) as int;
    assert(k0.eps.eps@[e as int].queue@.len() <= ipc::QUEUE_LIMIT);
    assert(0 <= t < k0.eps.eps@.len());
    let e0 = k0.eps.eps@[t];
    assert(e0.queue@.len() <= ipc::QUEUE_LIMIT);
    let e1 = k1.eps.eps@[t];
    let ts = k0.sched.tasks@;
    let rxs = e0.receivers@;
    assert forall|id: TaskId| #[trigger] ipc::is_blocked(ts, id) == waits(k0, id) by {
        sched::lemma_pos(ts, id, 0);
    }
    let k = ipc::first_blocked(ts, rxs, 0);
    ipc::lemma_first_blocked(ts, rxs, 0);
    if k < rxs.len() {
        sched::lemma_pos(ts, rxs[k], 0);
    }
    if forall|i: int| 0 <= i < rxs.len() ==> !waits(k0, #[trigger] rxs[i]) {
        if k < rxs.len() {
            assert(ipc::is_blocked(ts, rxs[k]));
            assert(waits(k0, rxs[k]));
        }
        assert(e1.queue@ == e0.queue@.push(msg) ==> e1.queue@.drop_last() =~= e0.queue@);
    }
    assert forall|i: int, j: int|
        #![trigger rxs[i], ts[j]]
        0 <= i < rxs.len() && 0 <= j < ts.len() && ts[j].id == rxs[i] && ts[j].state == State::Blocked && (
        forall|a: int| 0 <= a < i ==> !waits(k0, #[trigger] rxs[a])) implies k == i && sched::pos(ts, rxs[i], 0) == j by {
        sched::lemma_sorted_pos(ts, j);
        assert(ipc::is_blocked(ts, rxs[i]));
        if k < i {
            assert(ipc::is_blocked(ts, rxs[k]));
            assert(waits(k0, rxs[k]));
        }
    }
    assert(k < rxs.len() ==> rxs.subrange(k + 1, rxs.len() as int) =~= rxs.skip(k + 1));
}

/// Sending needs an endpoint in the slot and the right to send on it, and nothing
/// else; then the three words go out under the sender's own number.
pub proof fn lemma_words_go_out(
    k0: &Kernel,
    k1: &Kernel,
    bits: Seq<u64>,
    me: TaskId,
    p: int,
    slot: u64,
    w0: u64,
    w1: u64,
    w2: u64,
    r: i64,
)
    requires
        k0.wf(bits),
        0 <= p < k0.sched.tasks@.len(),
        k0.sched.tasks@[p].id == me,
        k1.send_done(k0, me, slot, w0, w1, w2, r),
    ensures
        match held_in(k0.sched.tasks@[p], slot) {
            Some(Capability { object: Object::Endpoint(e), rights }) => if rights.0 & 0x01 == 0x01 && e
                < k0.eps.eps@.len() {
                went_out(k0, k1, e, me, w0, w1, w2, None, r)
            } else {
                r == -1 && k1 == k0
            },
            _ => r == -1 && k1 == k0,
        },
{
    lemma_slot(k0, me, p, slot, 0x01);
    if let Some(e) = k0.endpoint_in(me, slot, 0x01) {
        let msg = choose|msg: Message| #[trigger]
            k1.sent(k0, e, msg, r) && msg.sender == me && msg.words@ == seq![w0, w1, w2, NO_CAP] && msg.cap is None;
        lemma_went_out(k0, k1, bits, e, msg, me, w0, w1, w2, r);
    }
}

/// A capability goes out only if its holder may grant it: for the same object,
/// with exactly the rights that both its holder and the mask have.
pub proof fn lemma_capability_goes_out(
    k0: &Kernel,
    k1: &Kernel,
    bits: Seq<u64>,
    me: TaskId,
    p: int,
    ep_slot: u64,
    cap_slot: u64,
    mask: u64,
    w0: u64,
    r: i64,
)
    requires
        k0.wf(bits),
        0 <= p < k0.sched.tasks@.len(),
        k0.sched.tasks@[p].id == me,
        k1.send_cap_done(k0, me, ep_slot, cap_slot, mask, w0, r),
    ensures
        match (held_in(k0.sched.tasks@[p], ep_slot), held_in(k0.sched.tasks@[p], cap_slot)) {
            (Some(Capability { object: Object::Endpoint(e), rights }), Some(c)) => if rights.0 & 0x01 == 0x01
                && e < k0.eps.eps@.len() && allows(c, 0x04) {
                went_out(
                    k0,
                    k1,
                    e,
                    me,
                    w0,
                    0,
                    0,
                    Some(
                        Capability {
                            object: c.object,
                            rights: Rights(c.rights.0 & ((mask % 0x1_0000_0000) as u32)),
                        },
                    ),
                    r,
                )
            } else {
                r == -1 && k1 == k0
            },
            _ => r == -1 && k1 == k0,
        },
{
    lemma_slot(k0, me, p, ep_slot, 0x01);
    lemma_slot(k0, me, p, cap_slot, 0x04);
    if let (Some(e), Some(c)) = (
        k0.endpoint_in(me, ep_slot, 0x01),
        obj::derived(k0.caps_of(me), abi::low32(cap_slot), Rights(abi::low32(mask))),
    ) {
        let msg = choose|msg: Message| #[trigger]
            k1.sent(k0, e, msg, r) && msg.sender == me && msg.words@ == seq![w0, 0, 0, NO_CAP] && msg.cap == Some(c);
        lemma_went_out(k0, k1, bits, e, msg, me, w0, 0, 0, r);
    }
}

/// Task `p` of `k1` got a capability: it is in slot `slot` of its table, which was
/// free, and all other slots are as they were.
pub open spec fn got_cap(t0: Task, t1: Task, c: Capability, slot: int) -> bool {
    &&& 0 <= slot < 256
    &&& slot < t1.caps@.len()
    &&& t1.caps@[slot] == Some(c)
    &&& slot < t0.caps@.len() ==> t0.caps@[slot] is None
    &&& forall|i: int| 0 <= i < slot ==> i < t0.caps@.len() && (#[trigger] t0.caps@[i]) is Some
    &&& forall|i: int|
        0 <= i < t1.caps@.len() && i != slot ==> i < t0.caps@.len() && #[trigger] t1.caps@[i] == t0.caps@[i]
    &&& t1.caps@.len() >= t0.caps@.len()
}

proof fn lemma_got_cap(t0: Task, t1: Task, c: Capability)
    requires
        t0.caps.wf(),
        obj::has_room(t0.caps@),
        t1.caps@ == obj::inserted(t0.caps@, c),
    ensures
        got_cap(t0, t1, c, obj::free_slot(t0.caps@, 0)),
{
    obj::lemma_free_slot(t0.caps@, 0);
}

/// What a task is told of a message it takes: the words as they were sent, and
/// last where the capability went that came with it. That is the lowest free
/// slot; a capability is refused only by a table whose 256 slots are all taken.
pub open spec fn taken_in(t0: Task, t1: Task, m: Message, words: Seq<u64>) -> bool {
    &&& words.len() == 4
    &&& words[0] == m.words@[0]
    &&& words[1] == m.words@[1]
    &&& words[2] == m.words@[2]
    &&& match m.cap {
        None => words[3] == u64::MAX && t1.caps@ == t0.caps@,
        Some(c) => if words[3] == u64::MAX {
            &&& t0.caps@.len() == 256
            &&& forall|i: int| 0 <= i < 256 ==> (#[trigger] t0.caps@[i]) is Some
            &&& t1.caps@ == t0.caps@
        } else {
            got_cap(t0, t1, c, words[3] as int)
        },
    }
}

/// Receiving needs an endpoint in the slot, the right to receive from it and a
/// place in user memory. The messages of an endpoint are taken in the order in
/// which they came; a task that finds none waits, behind those that waited before.
pub proof fn lemma_oldest_comes_first(
    k0: &Kernel,
    k1: &Kernel,
    b0: Seq<u64>,
    b1: Seq<u64>,
    me: TaskId,
    p: int,
    slot: u64,
    buf: u64,
    r: Action,
)
    requires
        k0.wf(b0),
        0 <= p < k0.sched.tasks@.len(),
        k0.sched.tasks@[p].id == me,
        k1.recv_done(k0, b0, b1, me, slot, buf, r),
    ensures
        match held_in(k0.sched.tasks@[p], slot) {
            Some(Capability { object: Object::Endpoint(e), rights }) => {
                let e0 = k0.eps.eps@[e as int];
                let e1 = k1.eps.eps@[e as int];
                let t0 = k0.sched.tasks@[p];
                let t1 = k1.sched.tasks@[p];
                if rights.0 & 0x02 != 0x02 || e >= k0.eps.eps@.len() {
                    comes_to(r, -1) && k1 == k0
                } else if buf + 32 > 0x8000_0000_0000 {
                    comes_to(r, -3) && k1 == k0
                } else if e0.queue@.len() > 0 {
                    &&& r matches Action::Store { ptr, words, count, value } && ptr == buf && count == 4 && value
                        == e0.queue@[0].sender && taken_in(t0, t1, e0.queue@[0], words@)
                    &&& e1.queue@ == e0.queue@.skip(1)
                    &&& e1.receivers@ == e0.receivers@
                    &&& t1.state == t0.state
                } else {
                    &&& r == Action::Wait { ep: e, ptr: buf }
                    &&& t1.state == State::Blocked
                    &&& t1.caps@ == t0.caps@
                    &&& e1.receivers@ == e0.receivers@.push(me)
                }
            },
            _ => comes_to(r, -1) && k1 == k0,
        },
{
    lemma_slot(k0, me, p, slot, 0x02);
    assert(k0.sched.tasks@[p].caps.wf());
    if let Some(e) = k0.endpoint_in(me, slot, 0x02) {
        let e0 = k0.eps.eps@[e as int];
        let t0 = k0.sched.tasks@[p];
        obj::lemma_free_slot(t0.caps@, 0);
        if buf + 32 <= 0x8000_0000_0000 {
            if e0.queue@.len() > 0 {
                assert(e0.queue@.subrange(1, e0.queue@.len() as int) =~= e0.queue@.skip(1));
                if let Some(c) = e0.queue@[0].cap {
                    if obj::has_room(t0.caps@) {
                        lemma_got_cap(t0, k1.sched.tasks@[p], c);
                    }
                }
            }
        }
    }
}

/// What one task sends, another receives: a message sent over an endpoint that
/// holds none and that nobody waits at is what the next one to receive there
/// gets, word for word, with the number of its sender.
pub proof fn lemma_sent_is_received(
    k0: &Kernel,
    k1: &Kernel,
    k2: &Kernel,
    b0: Seq<u64>,
    b1: Seq<u64>,
    me: TaskId,
    p: int,
    slot: u64,
    w0: u64,
    w1: u64,
    w2: u64,
    e: u32,
    you: TaskId,
    q: int,
    your_slot: u64,
    buf: u64,
    r: Action,
)
    requires
        k0.wf(b0),
        k1.wf(b0),
        0 <= p < k0.sched.tasks@.len(),
        k0.sched.tasks@[p].id == me,
        held_in(k0.sched.tasks@[p], slot) matches Some(c) && c.object == Object::Endpoint(e) && allows(c, 0x01),
        e < k0.eps.eps@.len(),
        k0.eps.eps@[e as int].peer is None,
        k0.eps.eps@[e as int].queue@.len() == 0,
        k0.eps.eps@[e as int].receivers@.len() == 0,
        k1.send_done(k0, me, slot, w0, w1, w2, 0),
        0 <= q < k1.sched.tasks@.len(),
        k1.sched.tasks@[q].id == you,
        held_in(k1.sched.tasks@[q], your_slot) matches Some(c) && c.object == Object::Endpoint(e) && allows(
            c,
            0x02,
        ),
        buf + 32 <= 0x8000_0000_0000,
        k2.recv_done(k1, b0, b1, you, your_slot, buf, r),
    ensures
        r matches Action::Store { ptr, words, count, value } && ptr == buf && count == 4 && value == me
            && words@ == seq![w0, w1, w2, u64::MAX],
        k2.eps.eps@[e as int].queue@.len() == 0,
{
    lemma_words_go_out(k0, k1, b0, me, p, slot, w0, w1, w2, 0);
    lemma_oldest_comes_first(k1, k2, b0, b1, you, q, your_slot, buf, r);
    assert(k1.eps.eps@[e as int].queue@[0] == k1.eps.eps@[e as int].queue@.last());
    assert(r->words@ =~= seq![w0, w1, w2, u64::MAX]);
}

/// Whoever creates memory gets it whole, in a slot that was free, with the rights
/// to read, write and grant it, and to hand it to devices if and only if it was
/// made for that; then its frames are adjacent. It takes one to 1024 pages, or 64
/// for devices, and a free slot.
pub proof fn lemma_memory_created(
    k0: &Kernel,
    k1: &Kernel,
    b0: Seq<u64>,
    b1: Seq<u64>,
    me: TaskId,
    p: int,
    pages: u64,
    dma: bool,
    r: Result<(u32, u32), i64>,
)
    requires
        k0.wf(b0),
        0 <= p < k0.sched.tasks@.len(),
        k0.sched.tasks@[p].id == me,
        k1.mem_create_done(k0, me, pages, dma, b0, b1, r),
    ensures
        (r is Err && r->Err_0 == -4) <==> pages < 1 || pages > 1024 || dma && pages > 64,
        match r {
            Ok((slot, id)) => {
                let list = k1.mem.objects@[id as int]->0.object.frames@;
                &&& got_cap(
                    k0.sched.tasks@[p],
                    k1.sched.tasks@[p],
                    Capability {
                        object: Object::Memory(id),
                        rights: Rights(
                            if dma {
                                0x08u32 | 0x10 | 0x04 | 0x20
                            } else {
                                0x08u32 | 0x10 | 0x04
                            },
                        ),
                    },
                    slot as int,
                )
                &&& k1.mem.objects@[id as int] is Some
                &&& k1.mem.objects@[id as int]->0.refs == 1
                &&& list.len() == pages
                &&& dma ==> forall|i: int| 0 < i < pages ==> #[trigger] list[i] == list[0] + i * 4096
            },
            Err(e) => {
                &&& e == -4 || e == -6
                &&& k1.sched.tasks@[p].caps@ == k0.sched.tasks@[p].caps@
                &&& e == -6 && !dma && k0.sched.tasks@[p].caps@.len() < 256 ==> pages > k0.bm.free
            },
        },
{
    lemma_slot(k0, me, p, 0, 0);
    assert(k0.sched.tasks@[p].caps.wf());
    assert(0x08u32 | 0x10 | 0x04 == 0x1C && 0x08u32 | 0x10 | 0x04 | 0x20 == 0x3C) by (bit_vector);
    if let Ok((slot, id)) = r {
        lemma_got_cap(
            k0.sched.tasks@[p],
            k1.sched.tasks@[p],
            Capability { object: Object::Memory(id), rights: Kernel::creator_rights(dma) },
        );
    }
}

/// A new endpoint is empty, connected to none, and its creator's alone, who may
/// send, receive and grant it.
pub proof fn lemma_endpoint_created(k0: &Kernel, k1: &Kernel, b0: Seq<u64>, me: TaskId, p: int, r: i64)
    requires
        k0.wf(b0),
        k0.has_ids(),
        0 <= p < k0.sched.tasks@.len(),
        k0.sched.tasks@[p].id == me,
        k1.ep_create_done(k0, me, r),
    ensures
        ({
            let n = k0.eps.eps@.len() as int;
            &&& k1.eps.eps@.len() == n + 1
            &&& forall|i: int| 0 <= i < n ==> #[trigger] k1.eps.eps@[i] == k0.eps.eps@[i]
            &&& k1.eps.eps@[n].queue@.len() == 0
            &&& k1.eps.eps@[n].receivers@.len() == 0
            &&& k1.eps.eps@[n].peer is None
            &&& r >= 0 ==> got_cap(
                k0.sched.tasks@[p],
                k1.sched.tasks@[p],
                Capability { object: Object::Endpoint(n as u32), rights: Rights(0x01u32 | 0x02 | 0x04) },
                r as int,
            )
            &&& r < 0 ==> r == -6 && k1.sched.tasks@[p].caps@ == k0.sched.tasks@[p].caps@
                && k0.sched.tasks@[p].caps@.len() == 256
        }),
{
    lemma_slot(k0, me, p, 0, 0);
    assert(k0.sched.tasks@[p].caps.wf());
    assert(0x01u32 | 0x02 | 0x04 == 0x07) by (bit_vector);
    obj::lemma_free_slot(k0.sched.tasks@[p].caps@, 0);
    if r >= 0 {
        lemma_got_cap(
            k0.sched.tasks@[p],
            k1.sched.tasks@[p],
            Capability { object: Object::Endpoint(k0.eps.eps@.len() as u32), rights: Rights(0x07) },
        );
    }
}

/// A physical address is told only of memory that may be handed to devices, and
/// is that of its first frame.
pub proof fn lemma_phys_needs_dma(k: &Kernel, bits: Seq<u64>, me: TaskId, p: int, slot: u64, r: i64)
    requires
        k.wf(bits),
        0 <= p < k.sched.tasks@.len(),
        k.sched.tasks@[p].id == me,
        k.phys_is(me, slot, r),
    ensures
        match held_in(k.sched.tasks@[p], slot) {
            Some(c) => if !allows(c, 0x20) {
                r == -1
            } else {
                match c.object {
                    Object::Memory(id) => {
                        let list = k.mem.objects@[id as int]->0.object.frames@;
                        if list.len() > 0 {
                            r == list[0]
                        } else {
                            r == -4
                        }
                    },
                    _ => r == -4,
                }
            },
            None => r == -1,
        },
{
    lemma_slot(k, me, p, slot, 0x20);
}

/// A capability for a range of ports reaches `width` bytes from `port` on, which is
/// `offset` into its range: one, two or four bytes, all of them in the range.
pub open spec fn reaches(had: Option<Capability>, bit: u32, offset: u64, width: u64, port: int) -> bool {
    match had {
        Some(Capability { object: Object::Port { base, len }, rights }) => {
            &&& rights.0 & bit == bit
            &&& port == base + offset
            &&& width == 1 || width == 2 || width == 4
            &&& base <= port && port + width <= base + len
        },
        _ => false,
    }
}

/// What calls that touch devices come to: each needs a capability of its kind in
/// the slot, with the right the call is for, and reaches nothing beyond it. A port
/// lies inside the range of its capability, with all its bytes.
pub proof fn lemma_devices_need_capabilities(
    k: &Kernel,
    bits: Seq<u64>,
    me: TaskId,
    p: int,
    uptime_ms: u64,
    nr: u64,
    a0: u64,
    a1: u64,
    a2: u64,
    a3: u64,
    r: Action,
)
    requires
        k.wf(bits),
        0 <= p < k.sched.tasks@.len(),
        k.sched.tasks@[p].id == me,
        k.asked_for(me, uptime_ms, nr, a0, a1, a2, a3, r),
    ensures
        ({
            let had = held_in(k.sched.tasks@[p], a0);
            &&& r matches Action::PortIn { port, width } ==> nr == 20 && width == a2 && reaches(
                had,
                0x08,
                a1,
                width,
                port as int,
            )
            &&& r matches Action::PortOut { port, width, value } ==> nr == 21 && width == a2 && value == a3
                % 0x1_0000_0000 && reaches(had, 0x10, a1, width, port as int)
            &&& nr == 20 && (exists|port: int| port + a2 <= 0x1_0000 && #[trigger] reaches(had, 0x08, a1, a2, port))
                ==> r is PortIn
            &&& nr == 21 && (exists|port: int| port + a2 <= 0x1_0000 && #[trigger] reaches(had, 0x10, a1, a2, port))
                ==> r is PortOut
            &&& r matches Action::Describe { device, ptr } ==> ptr == a1 && ptr + 112 <= 0x8000_0000_0000 && (
            had matches Some(c) && c.object == Object::Device(device))
            &&& r matches Action::MapBar { device, bar } ==> bar == a1 && bar < 6 && (had matches Some(c) && c.object
                == Object::Device(device))
            &&& r matches Action::NewIrq(device) ==> (had matches Some(c) && c.object == Object::Device(device))
            &&& r matches Action::Ack(irq) ==> (had matches Some(c) && allows(c, 0x02) && c.object == Object::Irq(
                irq,
            ))
            &&& r matches Action::Bind { irq, ep } ==> (had matches Some(c) && allows(c, 0x02) && c.object
                == Object::Irq(irq)) && (held_in(k.sched.tasks@[p], a1) matches Some(d) && allows(d, 0x01) && d.object
                == Object::Endpoint(ep))
            &&& r matches Action::Place(m) ==> nr == 10 && m.writable == (a1 != 0) && (had matches Some(c)
                && c.object == Object::Memory(m.object) && allows(c, 0x08) && (m.writable ==> allows(c, 0x10)))
        }),
{
    lemma_slot(k, me, p, a0, 0);
    lemma_slot(k, me, p, a0, 0x02);
    lemma_slot(k, me, p, a0, 0x08);
    lemma_slot(k, me, p, a0, 0x10);
    lemma_slot(k, me, p, a1, 0x01);
    if let Some(c) = held_in(k.sched.tasks@[p], a0) {
        lemma_both(c.rights.0);
    }
    if nr == SYS_MEM_MAP {
        lemma_mapped_as_asked(k, bits, me, p, a0, a1 != 0, k.map_request(me, a0, a1 != 0));
    }
}

/// The calls of a task on itself: it sleeps as long as it asks, a minute at most,
/// ends with the code it gives, and logs only what lies in user memory, up to
/// 4096 bytes.
pub proof fn lemma_own_calls(
    k: &Kernel,
    me: TaskId,
    uptime_ms: u64,
    a0: u64,
    a1: u64,
    a2: u64,
    a3: u64,
    slept: Action,
    ended: Action,
    logged: Action,
)
    requires
        k.asked_for(me, uptime_ms, SYS_SLEEP, a0, a1, a2, a3, slept),
        k.asked_for(me, uptime_ms, SYS_EXIT, a0, a1, a2, a3, ended),
        k.asked_for(me, uptime_ms, SYS_LOG, a0, a1, a2, a3, logged),
    ensures
        slept matches Action::Sleep(ms) && ms <= 60_000 && ms <= a0 && (ms == a0 || ms == 60_000),
        ended matches Action::Exit(code) && code as u64 == a0,
        logged == (Action::Log { ptr: a0, len: a1 }) || comes_to(logged, -3),
        logged is Log <==> a1 <= 4096 && a0 + a1 <= 0x8000_0000_0000,
{
    assert((a0 as i64) as u64 == a0) by (bit_vector);
}

/// A service is started only by a task that may start services, from memory that
/// it may read, and from no more bytes than that memory has.
pub proof fn lemma_spawn_needs_authority(
    k: &Kernel,
    bits: Seq<u64>,
    me: TaskId,
    p: int,
    ctl: u64,
    mem: u64,
    size: u64,
    name_len: u64,
    r: Result<u32, i64>,
)
    requires
        k.wf(bits),
        0 <= p < k.sched.tasks@.len(),
        k.sched.tasks@[p].id == me,
        r == k.spawn_image(me, ctl, mem, size, name_len),
    ensures
        ({
            let may = held_in(k.sched.tasks@[p], ctl) matches Some(c) && c.object == Object::Control && allows(
                c,
                0x40,
            );
            match held_in(k.sched.tasks@[p], mem) {
                Some(Capability { object: Object::Memory(id), rights }) => {
                    let room = k.mem.objects@[id as int]->0.object.frames@.len() * 4096;
                    if !may || rights.0 & 0x08 != 0x08 {
                        r is Err && r->Err_0 == -1
                    } else if 1 <= size <= room && 1 <= name_len <= 32 {
                        r == Ok::<u32, i64>(id)
                    } else {
                        r is Err && r->Err_0 == -4
                    }
                },
                _ => r is Err && r->Err_0 == -1,
            }
        }),
{
    lemma_slot(k, me, p, ctl, 0x40);
    lemma_slot(k, me, p, mem, 0x08);
}

/// What a new service is given is what its starter listed, in that order: for the
/// same objects, with the rights that both the starter and the list have, and
/// each only if the starter may grant it.
pub proof fn lemma_grants_in_order(k: &Kernel, me: TaskId, p: int, pairs: Seq<u64>, n: int, i: int)
    requires
        k.sched.wf(),
        0 <= p < k.sched.tasks@.len(),
        k.sched.tasks@[p].id == me,
        0 <= i < n,
        k.granted(me, pairs, n) is Some,
    ensures
        ({
            let list = k.granted(me, pairs, n)->0;
            &&& list.len() == n
            &&& held_in(k.sched.tasks@[p], pairs[2 * i]) matches Some(c) && allows(c, 0x04) && list[i]
                == (Capability {
                object: c.object,
                rights: Rights(c.rights.0 & ((pairs[2 * i + 1] % 0x1_0000_0000) as u32)),
            })
        }),
    decreases n,
{
    lemma_slot(k, me, p, pairs[2 * n - 2], 0x04);
    if n > 1 {
        if i < n - 1 {
            lemma_grants_in_order(k, me, p, pairs, n - 1, i);
        } else {
            lemma_grants_in_order(k, me, p, pairs, n - 1, 0);
        }
    }
}

/// A task that waited takes the message it was woken for, as it was sent, and
/// nobody else's.
pub proof fn lemma_woken_for(
    k0: &Kernel,
    k1: &Kernel,
    bits: Seq<u64>,
    b1: Seq<u64>,
    me: TaskId,
    p: int,
    e: u32,
    m: Message,
    r: Received,
)
    requires
        k0.wf(bits),
        0 <= p < k0.sched.tasks@.len(),
        k0.sched.tasks@[p].id == me,
        k0.sched.tasks@[p].ipc_inbox == Some(m),
        k1.resumed(k0, me, e, r, bits, b1),
    ensures
        r matches Received::Got { sender, words } && sender == m.sender && taken_in(
            k0.sched.tasks@[p],
            k1.sched.tasks@[p],
            m,
            words@,
        ),
        k1.sched.tasks@[p].ipc_inbox is None,
        k1.eps == k0.eps,
        forall|j: int|
            0 <= j < k0.sched.tasks@.len() && j != p ==> #[trigger] k1.sched.tasks@[j] == k0.sched.tasks@[j],
{
    lemma_slot(k0, me, p, 0, 0);
    let t0 = k0.sched.tasks@[p];
    assert(t0.caps.wf());
    obj::lemma_free_slot(t0.caps@, 0);
    if let Some(c) = m.cap {
        if obj::has_room(t0.caps@) {
            lemma_got_cap(t0, k1.sched.tasks@[p], c);
        }
    }
}

/// Every interrupt is counted, and the endpoint it is bound to is told its vector
/// and how often it came. One that is bound to none, or finds 64 messages that
/// nobody waits for, is counted as dropped.
pub proof fn lemma_interrupt_told(
    k0: &Kernel,
    k1: &Kernel,
    bits: Seq<u64>,
    t0: &IrqTable,
    t1: &IrqTable,
    vector: u8,
    o: IrqObject,
)
    requires
        k0.wf(bits),
        t0.wf(),
        t0.slots@[vector as int] == Some(o),
        o.count < u64::MAX,
        o.dropped < u64::MAX,
        o.endpoint matches Some(e) ==> e < k0.eps.eps@.len(),
        k1.forwarded(k0, t0, t1, vector),
    ensures
        t1.slots@[vector as int] matches Some(q) && {
            let told = q.dropped == o.dropped;
            &&& q.count == o.count + 1
            &&& q.dropped == o.dropped || q.dropped == o.dropped + 1
            &&& q.endpoint == o.endpoint && q.vector == o.vector && q.gsi == o.gsi && q.level == o.level
            &&& o.endpoint is None ==> !told && k1 == k0
            &&& o.endpoint matches Some(e) ==> went_out(
                k0,
                k1,
                e,
                0,
                vector as u64,
                q.count,
                0,
                None,
                if told {
                    0
                } else {
                    EAGAIN
                },
            )
        },
        forall|v: int| 0 <= v < 256 && v != vector ==> #[trigger] t1.slots@[v] == t0.slots@[v],
{
    if let Some(e) = o.endpoint {
        let n = (o.count + 1) as u64;
        let (m, code) = choose|m: Message, code: i64|
            {
                &&& m.sender == 0
                &&& m.words@ == irq::event(vector, n)
                &&& m.cap is None
                &&& #[trigger] k1.sent(k0, e, m, code)
                &&& t1.slots@ == t0.slots@.update(
                    vector as int,
                    Some(
                        IrqObject {
                            count: n,
                            dropped: if code == 0 {
                                o.dropped
                            } else {
                                (o.dropped + 1) as u64
                            },
                            ..o
                        },
                    ),
                )
            };
        lemma_went_out(k0, k1, bits, e, m, 0, vector as u64, n, 0, code);
    }
}

/// A dead task that has left its CPU is taken down, the first of them first: it is
/// gone, everyone else is not, and whoever asks hears how it ended. Every memory
/// object has as many references less as the task had.
pub proof fn lemma_taken_down(
    k0: &Kernel,
    k1: &Kernel,
    b0: Seq<u64>,
    b1: Seq<u64>,
    r: Option<Dead>,
    k: int,
    i: int,
    id: u32,
)
    requires
        k0.wf(b0),
        k1.took_down(k0, b0, b1, r),
        0 <= k < k0.sched.reap@.len(),
        forall|a: int, j: int|
            #![trigger k0.sched.reap@[a], k0.sched.tasks@[j]]
            0 <= a < k && 0 <= j < k0.sched.tasks@.len() && k0.sched.tasks@[j].id == k0.sched.reap@[a]
                ==> k0.sched.tasks@[j].on_cpu is Some,
        0 <= i < k0.sched.tasks@.len(),
        k0.sched.tasks@[i].id == k0.sched.reap@[k],
        k0.sched.tasks@[i].on_cpu is None,
    ensures
        r matches Some(d) && {
            let t = k0.sched.tasks@[i];
            &&& d.id == t.id
            &&& d.service == t.service
            &&& t.exit_code matches Some(code) ==> d.code == code
            &&& t.exit_code is None ==> d.code == 0
        },
        k1.sched.tasks@ == k0.sched.tasks@.remove(i),
        k1.sched.reap@ == k0.sched.reap@.remove(k),
        k0.mem.refs(id) - k1.mem.refs(id) == state::task_refs(k0.sched.tasks@[i], id),
{
    let s = k0.sched;
    let p = sched::pos(s.tasks@, s.reap@[k], 0);
    sched::lemma_sorted_pos(s.tasks@, i);
    let mut t = s;
    t.tasks = k1.sched.tasks;
    t.reap = k1.sched.reap;
    let n = sched::Scheduler::first_dead(s.tasks@, s.reap@, 0);
    let q = sched::pos(s.tasks@, s.reap@[n], 0);
    let got = if n < s.reap@.len() {
        Some(s.tasks@[q])
    } else {
        None
    };
    assert(t.reaped(&s, got));
    sched::lemma_reap_in_order(&s, &t, got, k, i);
    assert(n < s.reap@.len());
    assert(p == i);
    sched::lemma_pos(s.tasks@, s.reap@[n], 0);
    sched::lemma_sorted_pos(s.tasks@, q);
    assert(s.tasks@[q] == s.tasks@[i]);
    assert(q == i);
}

/// A capability that is given up is gone from its slot and from no other. A memory
/// object that it was for has one reference less, and with the last one its frames
/// are free.
pub proof fn lemma_given_up(
    k0: &Kernel,
    k1: &Kernel,
    b0: Seq<u64>,
    b1: Seq<u64>,
    me: TaskId,
    p: int,
    uptime_ms: u64,
    slot: u64,
    a1: u64,
    a2: u64,
    a3: u64,
    r: Action,
    i: int,
)
    requires
        k0.wf(b0),
        0 <= p < k0.sched.tasks@.len(),
        k0.sched.tasks@[p].id == me,
        k1.dispatched(k0, b0, b1, me, uptime_ms, 8, slot, a1, a2, a3, r),
    ensures
        ({
            let t0 = k0.sched.tasks@[p];
            let t1 = k1.sched.tasks@[p];
            let had = held_in(t0, slot);
            &&& had is Some ==> comes_to(r, 0)
            &&& had is None ==> comes_to(r, -4)
            &&& held_in(t1, slot) is None
            &&& t1.caps@.len() == t0.caps@.len()
            &&& 0 <= i < t0.caps@.len() && i != slot as int % 0x1_0000_0000 ==> t1.caps@[i] == t0.caps@[i]
            &&& had matches Some(Capability { object: Object::Memory(id), rights }) ==> {
                &&& k1.mem.refs(id) == k0.mem.refs(id) - 1
                &&& k0.mem.refs(id) == 1 ==> !k1.mem.live(id as int) && k1.bm.free == k0.bm.free
                    + k0.mem.objects@[id as int]->0.object.frames@.len()
            }
            &&& !(had is Some && had->0.object is Memory) ==> k1.mem == k0.mem && k1.bm == k0.bm
        }),
{
    lemma_slot(k0, me, p, slot, 0);
    let had = held_in(k0.sched.tasks@[p], slot);
    assert(obj::in_slot(k0.caps_of(me), abi::low32(slot)) == had);
    if let Some(c) = had {
        k0.lemma_held_live(b0, Seq::empty(), me, abi::low32(slot));
        if let Object::Memory(id) = c.object {
            assert(k0.mem.live(id as int));
            assert(k0.mem.objects@[id as int] is Some);
            assert(k1.mem.let_go(&k0.mem, id, &k0.bm, &k1.bm, b0, b1));
        }
    }
}

/// Which number is which call, for those that touch more than the caller itself.
pub proof fn lemma_call_numbers(
    k0: &Kernel,
    k1: &Kernel,
    b0: Seq<u64>,
    b1: Seq<u64>,
    me: TaskId,
    uptime_ms: u64,
    nr: u64,
    a0: u64,
    a1: u64,
    a2: u64,
    a3: u64,
    r: Action,
)
    requires
        k1.dispatched(k0, b0, b1, me, uptime_ms, nr, a0, a1, a2, a3, r),
    ensures
        nr == 4 ==> r is Return && k1.send_done(k0, me, a0, a1, a2, a3, r->Return_0),
        nr == 5 ==> k1.recv_done(k0, b0, b1, me, a0, a1, r),
        nr == 7 ==> r is Return && k1.send_cap_done(k0, me, a0, a1, a2, a3, r->Return_0),
        nr == 9 || nr == 12 ==> r is Clear || r is Return,
        nr == 9 || nr == 12 ==> (r matches Action::Clear { slot, object } ==> k1.mem_create_done(
            k0,
            me,
            a0,
            nr == 12,
            b0,
            b1,
            Ok((slot, object)),
        )),
        nr == 9 || nr == 12 ==> (r matches Action::Return(e) ==> k1.mem_create_done(
            k0,
            me,
            a0,
            nr == 12,
            b0,
            b1,
            Err(e),
        )),
        nr == 10 ==> k1 == k0 && match k0.map_request(me, a0, a1 != 0) {
            Ok(m) => r == Action::Place(m),
            Err(e) => r == Action::Return(e),
        },
        nr == 11 ==> r is Return && k1.ep_create_done(k0, me, r->Return_0),
        nr == 13 ==> k1 == k0 && r is Return && k0.phys_is(me, a0, r->Return_0),
        nr == 2 ==> r is Yield && k1 == k0,
        nr == 6 && a0 + 16 <= 0x8000_0000_0000 ==> (r matches Action::Store { ptr, words, count, value } && ptr == a0
            && count == 2 && value == 0 && words@[0] == uptime_ms && words@[1] == me),
        nr > 22 ==> r == Action::Unknown(nr) && k1 == k0,
{
}

/// As long as every dead task is still on a CPU, nothing is taken down and nothing
/// changes.
pub proof fn lemma_none_taken_down(k0: &Kernel, k1: &Kernel, b0: Seq<u64>, b1: Seq<u64>, r: Option<Dead>)
    requires
        k0.wf(b0),
        k1.took_down(k0, b0, b1, r),
        forall|a: int, j: int|
            #![trigger k0.sched.reap@[a], k0.sched.tasks@[j]]
            0 <= a < k0.sched.reap@.len() && 0 <= j < k0.sched.tasks@.len() && k0.sched.tasks@[j].id
                == k0.sched.reap@[a] ==> k0.sched.tasks@[j].on_cpu is Some,
    ensures
        r is None,
        k1.sched.tasks@ == k0.sched.tasks@,
        k1.sched.reap@ == k0.sched.reap@,
        k1.mem == k0.mem,
        k1.bm == k0.bm,
        b1 == b0,
{
    let s = k0.sched;
    let n = sched::Scheduler::first_dead(s.tasks@, s.reap@, 0);
    sched::lemma_first_dead(s.tasks@, s.reap@, 0);
    if n < s.reap@.len() {
        sched::lemma_pos(s.tasks@, s.reap@[n], 0);
        let q = sched::pos(s.tasks@, s.reap@[n], 0);
        assert(s.tasks@[q].id == s.reap@[n]);
    }
}

} // verus!
