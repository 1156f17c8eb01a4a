//! The system-call table.
use vstd::prelude::*;

use crate::kernel::ipc;
use crate::kernel::message::Message;
use crate::kernel::obj;
use crate::kernel::obj::{CapSlot, Capability, Object, Rights};
use crate::kernel::sched;
use crate::kernel::state::Kernel;
use crate::kernel::syscall;
use crate::kernel::syscall::{Received, EFAULT, EINVAL, EPERM};
use crate::kernel::task::{Mapping, TaskId};
use crate::rt::abi;
use crate::rt::abi::Cap;
use crate::rt::calls;
use crate::rt::calls::{Grant, Span};
use crate::rt::abi::{NO_CAP, RIGHT_GRANT, RIGHT_MAP_READ, RIGHT_MAP_WRITE, RIGHT_RECV, RIGHT_SEND, RIGHT_SPAWN};
use crate::rt::calls::{MAX_SPAWN_ARGS, MAX_SPAWN_GRANTS};
use crate::rt::calls::{
    SYS_CAP_DROP, SYS_DEV_INFO, SYS_DEV_IRQ, SYS_DEV_MAP, SYS_EP_CREATE, SYS_EXIT, SYS_INFO,
    SYS_IRQ_ACK, SYS_IRQ_BIND, SYS_LOG, SYS_MEM_CREATE, SYS_MEM_CREATE_DMA, SYS_MEM_MAP,
    SYS_MEM_PHYS, SYS_PORT_IN, SYS_PORT_OUT, SYS_RECV, SYS_SEND, SYS_SEND_CAP, SYS_SLEEP, SYS_SPAWN,
    SYS_SPAWN_DESC, SYS_YIELD,
};

verus! {

/// Longest sleep a task may ask for, in milliseconds.
pub const MAX_SLEEP: u64 = 60_000;

/// Longest service name.
pub const MAX_NAME: u64 = 32;

/// What is left to do for a call.
#[allow(inconsistent_fields)]
pub enum Action {
    /// Return this value.
    Return(i64),
    /// Read text from user memory and log it; then 0, or `EFAULT` if it cannot
    /// be read.
    Log { ptr: u64, len: u64 },
    /// End the task.
    Exit(i64),
    /// Let another task run, then return 0.
    Yield,
    /// Sleep this many milliseconds, then return 0.
    Sleep(u64),
    /// Switch away; when the task runs again, resume receiving on this endpoint
    /// and store what comes at `ptr`.
    Wait { ep: u32, ptr: u64 },
    /// Store the first `count` words in user memory, then return `value`, or
    /// `EFAULT` if they cannot be stored.
    Store { ptr: u64, words: [u64; 4], count: usize, value: i64 },
    /// Clear the frames of a new memory object, then return its slot.
    Clear { slot: CapSlot, object: u32 },
    /// Map a memory object into the caller's address space.
    Place(Mapping),
    /// Store the description of a device in user memory.
    Describe { device: u32, ptr: u64 },
    /// Map a memory window of a device.
    MapBar { device: u32, bar: u64 },
    /// Send the events of an interrupt to an endpoint.
    Bind { irq: u32, ep: u32 },
    /// Re-arm an interrupt.
    Ack(u32),
    /// Make an interrupt object for a device.
    NewIrq(u32),
    PortIn { port: u16, width: u64 },
    PortOut { port: u16, width: u64, value: u32 },
    /// Start a service from the image in a memory object.
    Spawn { image: u32, size: u64, name_ptr: u64, name_len: u64 },
    /// Read a spawn descriptor from user memory.
    ReadSpawn { ptr: u64 },
    /// There is no such call: log it and return `ENOSYS`.
    Unknown(u64),
}

/// What a spawn descriptor asks for.
pub struct SpawnRequest {
    pub image: u32,
    pub size: u64,
    pub name_ptr: u64,
    pub name_len: u64,
    pub arg_ptr: u64,
    pub arg_len: u64,
    pub grants: Vec<Capability>,
}

/// The I/O port a call means: inside the range of the capability, with a width
/// of 1, 2 or 4 bytes.
pub open spec fn port_at(base: u16, len: u16, offset: u64, width: u64) -> Option<u16> {
    if (width == 1 || width == 2 || width == 4) && offset + width <= len && base + offset + width <= 0x1_0000 {
        Some((base + offset) as u16)
    } else {
        None
    }
}

fn port_number(base: u16, len: u16, offset: u64, width: u64) -> (r: Option<u16>)
    ensures
        r == port_at(base, len, offset, width),
{
    if width != 1 && width != 2 && width != 4 {
        return None;
    }
    if offset > len as u64 || offset + width > len as u64 {
        return None;
    }
    if base as u64 + offset + width > 0x1_0000 {
        return None;
    }
    Some((base as u64 + offset) as u16)
}

impl Kernel {
    /// What a slot of task `me` holds, if it carries `rights`.
    pub open spec fn slot_in(&self, me: TaskId, slot: u64, rights: u32) -> Option<Capability> {
        obj::usable_slot(self.caps_of(me), abi::low32(slot), Rights(rights))
    }

    fn lookup(&self, me: TaskId, slot: u64, rights: u32) -> (r: Option<Capability>)
        requires
            self.sched.task(me) is Some,
        ensures
            r == self.slot_in(me, slot, rights),
    {
        let p: usize = self.sched.find(me);
        self.sched.tasks[p].caps.lookup((slot % 0x1_0000_0000) as u32, Rights(rights))
    }

    /// The calls that change nothing by themselves: what they come to.
    pub open spec fn asked_for(
        &self,
        me: TaskId,
        uptime_ms: u64,
        nr: u64,
        a0: u64,
        a1: u64,
        a2: u64,
        a3: u64,
        r: Action,
    ) -> bool {
        if nr == SYS_LOG {
            r == if syscall::user_range(a0, a1) {
                Action::Log { ptr: a0, len: a1 }
            } else {
                Action::Return(EFAULT)
            }
        } else if nr == SYS_EXIT {
            r == Action::Exit(a0 as i64)
        } else if nr == SYS_YIELD {
            r is Yield
        } else if nr == SYS_SLEEP {
            r == Action::Sleep(
                if a0 < MAX_SLEEP {
                    a0
                } else {
                    MAX_SLEEP
                },
            )
        } else if nr == SYS_INFO {
            if syscall::user_range(a0, 16) {
                r matches Action::Store { ptr, words, count, value } && ptr == a0 && words@ == seq![
                    uptime_ms,
                    me as u64,
                    0,
                    0,
                ] && count == 2 && value == 0
            } else {
                r == Action::Return(EFAULT)
            }
        } else if nr == SYS_MEM_MAP {
            match self.map_request(me, a0, a1 != 0) {
                Ok(m) => r == Action::Place(m),
                Err(e) => r == Action::Return(e),
            }
        } else if nr == SYS_DEV_INFO {
            match self.slot_in(me, a0, 0) {
                Some(Capability { object: Object::Device(d), .. }) => r == if syscall::user_range(a1, 112) {
                    Action::Describe { device: d, ptr: a1 }
                } else {
                    Action::Return(EFAULT)
                },
                _ => r == Action::Return(EPERM),
            }
        } else if nr == SYS_DEV_MAP {
            match self.slot_in(me, a0, 0) {
                Some(Capability { object: Object::Device(d), .. }) => r == if a1 < 6 {
                    Action::MapBar { device: d, bar: a1 }
                } else {
                    Action::Return(EINVAL)
                },
                _ => r == Action::Return(EPERM),
            }
        } else if nr == SYS_SPAWN {
            self.spawn_asked(me, a0, a1, a2, a3 % 0x1_0000_0000_0000, a3 / 0x1_0000_0000_0000, r)
        } else if nr == SYS_IRQ_BIND {
            match (self.slot_in(me, a0, RIGHT_RECV), self.endpoint_in(me, a1, RIGHT_SEND)) {
                (Some(Capability { object: Object::Irq(i), .. }), Some(e)) => r == Action::Bind {
                    irq: i,
                    ep: e,
                },
                _ => r == Action::Return(EPERM),
            }
        } else if nr == SYS_IRQ_ACK {
            match self.slot_in(me, a0, RIGHT_RECV) {
                Some(Capability { object: Object::Irq(i), .. }) => r == Action::Ack(i),
                _ => r == Action::Return(EPERM),
            }
        } else if nr == SYS_DEV_IRQ {
            match self.slot_in(me, a0, 0) {
                Some(Capability { object: Object::Device(d), .. }) => r == Action::NewIrq(d),
                _ => r == Action::Return(EPERM),
            }
        } else if nr == SYS_PORT_IN {
            match self.slot_in(me, a0, RIGHT_MAP_READ) {
                Some(Capability { object: Object::Port { base, len }, .. }) => match port_at(base, len, a1, a2) {
                    Some(port) => r == Action::PortIn { port, width: a2 },
                    None => r == Action::Return(EINVAL),
                },
                _ => r == Action::Return(EPERM),
            }
        } else if nr == SYS_PORT_OUT {
            match self.slot_in(me, a0, RIGHT_MAP_WRITE) {
                Some(Capability { object: Object::Port { base, len }, .. }) => match port_at(base, len, a1, a2) {
                    Some(port) => r == Action::PortOut { port, width: a2, value: abi::low32(a3) },
                    None => r == Action::Return(EINVAL),
                },
                _ => r == Action::Return(EPERM),
            }
        } else if nr == SYS_SPAWN_DESC {
            r == if syscall::user_range(a0, 64) {
                Action::ReadSpawn { ptr: a0 }
            } else {
                Action::Return(EFAULT)
            }
        } else {
            r == Action::Unknown(nr)
        }
    }

    /// What starting a service without capabilities comes to.
    pub open spec fn spawn_asked(
        &self,
        me: TaskId,
        ctl: u64,
        mem: u64,
        size: u64,
        name_ptr: u64,
        name_len: u64,
        r: Action,
    ) -> bool {
        match self.spawn_image(me, ctl, mem, size, name_len) {
            Err(e) => r == Action::Return(e),
            Ok(id) => r == if syscall::user_range(name_ptr, name_len) {
                Action::Spawn { image: id, size, name_ptr, name_len }
            } else {
                Action::Return(EFAULT)
            },
        }
    }

    /// The image a spawn call means: the caller must hold the authority to start
    /// services and the memory the image is in, and the image must lie inside
    /// it.
    pub open spec fn spawn_image(&self, me: TaskId, ctl: u64, mem: u64, size: u64, name_len: u64) -> Result<
        u32,
        i64,
    > {
        match (self.slot_in(me, ctl, RIGHT_SPAWN), self.memory_in(me, mem, RIGHT_MAP_READ)) {
            (Some(Capability { object: Object::Control, .. }), Some(id)) => if size == 0 || size
                > self.mem.frames_of(id as int).len() * 4096 || name_len == 0 || name_len > MAX_NAME {
                Err(EINVAL)
            } else {
                Ok(id)
            },
            _ => Err(EPERM),
        }
    }

    fn check_spawn(&self, bits: &[u64], me: TaskId, ctl: u64, mem: u64, size: u64, name_len: u64) -> (r: Result<
        u32,
        i64,
    >)
        requires
            self.wf(bits@),
            self.sched.task(me) is Some,
        ensures
            r == self.spawn_image(me, ctl, mem, size, name_len),
    {
        match self.lookup(me, ctl, RIGHT_SPAWN) {
            Some(c) => match c.object {
                Object::Control => {},
                _ => {
                    return Err(EPERM);
                },
            },
            None => {
                return Err(EPERM);
            },
        }
        let id: u32 = match self.lookup(me, mem, RIGHT_MAP_READ) {
            Some(c) => match c.memory() {
                Some(id) => id,
                None => {
                    return Err(EPERM);
                },
            },
            None => {
                return Err(EPERM);
            },
        };
        proof {
            self.lemma_held_live(bits@, Seq::empty(), me, abi::low32(mem));
            crate::kernel::memory::lemma_fits(&self.mem, id as int, bits@, self.bm.frames as int);
        }
        let pages: u64 = match &self.mem.objects[id as usize] {
            None => 0,
            Some(o) => o.object.pages() as u64,
        };
        if size == 0 || size > pages * 4096 || name_len == 0 || name_len > MAX_NAME {
            return Err(EINVAL);
        }
        Ok(id)
    }

    /// The first `n` grants of a descriptor, each derived from the caller's own
    /// table: `GRANT` required, rights masked. `None` if one may not be handed
    /// on.
    pub open spec fn granted(&self, me: TaskId, pairs: Seq<u64>, n: int) -> Option<Seq<Capability>>
        decreases n,
    {
        if n <= 0 {
            Some(Seq::empty())
        } else {
            match (
                self.granted(me, pairs, n - 1),
                obj::derived(
                    self.caps_of(me),
                    abi::low32(pairs[2 * n - 2]),
                    Rights(abi::low32(pairs[2 * n - 1])),
                ),
            ) {
                (Some(s), Some(c)) => Some(s.push(c)),
                _ => None,
            }
        }
    }

    /// What a spawn descriptor asks for. `head` is its first eight words, `pairs`
    /// the slots and rights that follow.
    pub fn spawn_request(&self, bits: &[u64], me: TaskId, head: &[u64], pairs: &[u64]) -> (r: Result<
        SpawnRequest,
        i64,
    >)
        requires
            self.wf(bits@),
            self.sched.task(me) is Some,
            head@.len() == 8,
            head@[5] <= MAX_SPAWN_GRANTS ==> pairs@.len() == 2 * head@[5],
        ensures
            ({
                let image = self.spawn_image(me, head@[0], head@[1], head@[2], head@[4]);
                let grants = self.granted(me, pairs@, head@[5] as int);
                if head@[5] > MAX_SPAWN_GRANTS || head@[7] > MAX_SPAWN_ARGS {
                    r == Err::<SpawnRequest, i64>(EINVAL)
                } else if image is Err {
                    r == Err::<SpawnRequest, i64>(image->Err_0)
                } else if grants is None {
                    r == Err::<SpawnRequest, i64>(EPERM)
                } else if !syscall::user_range(head@[3], head@[4]) || !syscall::user_range(
                    head@[6],
                    head@[7],
                ) {
                    r == Err::<SpawnRequest, i64>(EFAULT)
                } else {
                    r matches Ok(q) && q.image == image->Ok_0 && q.size == head@[2] && q.name_ptr == head@[3]
                        && q.name_len == head@[4] && q.arg_ptr == head@[6] && q.arg_len == head@[7]
                        && q.grants@ == grants->0
                }
            }),
    {
        if head[5] > MAX_SPAWN_GRANTS as u64 || head[7] > MAX_SPAWN_ARGS as u64 {
            return Err(EINVAL);
        }
        let image: u32 = match self.check_spawn(bits, me, head[0], head[1], head[2], head[4]) {
            Ok(i) => i,
            Err(e) => {
                return Err(e);
            },
        };
        let n: usize = head[5] as usize;
        let p: usize = self.sched.find(me);
        let mut grants: Vec<Capability> = Vec::new();
        let mut i: usize = 0;
        assert(grants@ =~= Seq::empty());
        while i < n
            invariant
                i <= n,
                n == head@[5],
                n <= 8,
                head@.len() == 8,
                head@[7] <= MAX_SPAWN_ARGS,
                self.spawn_image(me, head@[0], head@[1], head@[2], head@[4]) == Ok::<u32, i64>(image),
                pairs@.len() == 2 * n,
                self.sched.task(me) is Some,
                p == crate::kernel::sched::pos(self.sched.tasks@, me, 0),
                p < self.sched.tasks@.len(),
                self.granted(me, pairs@, i as int) == Some(grants@),
            decreases n - i,
        {
            let slot: u32 = (pairs[2 * i] % 0x1_0000_0000) as u32;
            let mask: u32 = (pairs[2 * i + 1] % 0x1_0000_0000) as u32;
            match self.sched.tasks[p].caps.derive(slot, Rights(mask)) {
                None => {
                    proof {
                        assert(self.granted(me, pairs@, i + 1) is None);
                        self.lemma_granted_none(me, pairs@, i + 1, n as int);
                    }
                    return Err(EPERM);
                },
                Some(c) => {
                    grants.push(c);
                },
            }
            i = i + 1;
        }
        if !syscall::user_range_ok(head[3], head[4]) || !syscall::user_range_ok(head[6], head[7]) {
            return Err(EFAULT);
        }
        Ok(
            SpawnRequest {
                image,
                size: head[2],
                name_ptr: head[3],
                name_len: head[4],
                arg_ptr: head[6],
                arg_len: head[7],
                grants,
            },
        )
    }

    proof fn lemma_granted_none(&self, me: TaskId, pairs: Seq<u64>, i: int, n: int)
        requires
            i <= n,
            self.granted(me, pairs, i) is None,
        ensures
            self.granted(me, pairs, n) is None,
        decreases n - i,
    {
        if i < n {
            self.lemma_granted_none(me, pairs, i, n - 1);
        }
    }

    /// What receiving does, from `old` to `self`.
    pub open spec fn recv_done(
        &self,
        old: &Kernel,
        b0: Seq<u64>,
        b1: Seq<u64>,
        me: TaskId,
        slot: u64,
        buf: u64,
        r: Action,
    ) -> bool {
        match old.endpoint_in(me, slot, RIGHT_RECV) {
            None => r == Action::Return(EPERM) && *self == *old && b1 == b0,
            Some(e) => if !syscall::user_range(buf, 32) {
                r == Action::Return(EFAULT) && *self == *old && b1 == b0
            } else {
                match r {
                    Action::Wait { ep, ptr } => ep == e && ptr == buf && self.asked(
                        old,
                        me,
                        e,
                        Received::Wait,
                        b0,
                        b1,
                    ),
                    Action::Store { ptr, words, count, value } => ptr == buf && count == 4 && 0 <= value
                        <= u32::MAX && self.asked(
                        old,
                        me,
                        e,
                        Received::Got { sender: value as u32, words },
                        b0,
                        b1,
                    ),
                    _ => false,
                }
            },
        }
    }

    /// What a call does to the kernel's state, from `old` to `self`, and what it
    /// leaves to do.
    pub open spec fn dispatched(
        &self,
        old: &Kernel,
        b0: Seq<u64>,
        b1: Seq<u64>,
        me: TaskId,
        uptime_ms: u64,
        nr: u64,
        a0: u64,
        a1: u64,
        a2: u64,
        a3: u64,
        r: Action,
    ) -> bool {
        if nr == SYS_SEND {
            r matches Action::Return(v) && self.send_done(old, me, a0, a1, a2, a3, v) && b1 == b0
        } else if nr == SYS_SEND_CAP {
            r matches Action::Return(v) && self.send_cap_done(old, me, a0, a1, a2, a3, v) && b1 == b0
        } else if nr == SYS_RECV {
            self.recv_done(old, b0, b1, me, a0, a1, r)
        } else if nr == SYS_CAP_DROP {
            let caps = old.caps_of(me);
            let slot = abi::low32(a0);
            &&& r == Action::Return(
                if obj::in_slot(caps, slot) is Some {
                    0
                } else {
                    EINVAL
                },
            )
            &&& self.table_is(
                old,
                me,
                if slot < caps.len() {
                    caps.update(slot as int, None)
                } else {
                    caps
                },
            )
            &&& self.dropped(old, obj::in_slot(caps, slot), b0, b1)
        } else if nr == SYS_MEM_CREATE || nr == SYS_MEM_CREATE_DMA {
            let dma = nr == SYS_MEM_CREATE_DMA;
            match r {
                Action::Clear { slot, object } => self.mem_create_done(
                    old,
                    me,
                    a0,
                    dma,
                    b0,
                    b1,
                    Ok((slot, object)),
                ),
                Action::Return(e) => self.mem_create_done(old, me, a0, dma, b0, b1, Err(e)),
                _ => false,
            }
        } else if nr == SYS_EP_CREATE {
            r matches Action::Return(v) && self.ep_create_done(old, me, v) && b1 == b0
        } else if nr == SYS_MEM_PHYS {
            &&& *self == *old
            &&& b1 == b0
            &&& r matches Action::Return(v) && old.phys_is(me, a0, v)
        } else {
            &&& *self == *old
            &&& b1 == b0
            &&& old.asked_for(me, uptime_ms, nr, a0, a1, a2, a3, r)
        }
    }

    /// Carry out a system call of task `me`.
    pub fn dispatch(
        &mut self,
        bits: &mut [u64],
        me: TaskId,
        uptime_ms: u64,
        nr: u64,
        a0: u64,
        a1: u64,
        a2: u64,
        a3: u64,
    ) -> (r: Action)
        requires
            old(self).wf(old(bits)@),
            old(self).can_count(),
            old(self).has_ids(),
            old(self).sched.task(me) is Some,
            old(self).sched.task(me)->0.ipc_inbox is None,
        ensures
            final(self).wf(final(bits)@),
            final(self).dispatched(
                old(self),
                old(bits)@,
                final(bits)@,
                me,
                uptime_ms,
                nr,
                a0,
                a1,
                a2,
                a3,
                r,
            ),
    {
        if nr == SYS_SEND {
            return Action::Return(self.sys_send(bits, me, a0, a1, a2, a3));
        }
        if nr == SYS_SEND_CAP {
            return Action::Return(self.sys_send_cap(bits, me, a0, a1, a2, a3));
        }
        if nr == SYS_RECV {
            return self.sys_recv(bits, me, a0, a1);
        }
        if nr == SYS_CAP_DROP {
            return if self.cap_drop(bits, me, (a0 % 0x1_0000_0000) as u32) {
                Action::Return(0)
            } else {
                Action::Return(EINVAL)
            };
        }
        if nr == SYS_MEM_CREATE || nr == SYS_MEM_CREATE_DMA {
            return match self.sys_mem_create(bits, me, a0, nr == SYS_MEM_CREATE_DMA) {
                Ok((slot, object)) => Action::Clear { slot, object },
                Err(e) => Action::Return(e),
            };
        }
        if nr == SYS_EP_CREATE {
            return Action::Return(self.sys_ep_create(bits, me));
        }
        if nr == SYS_MEM_PHYS {
            return Action::Return(self.sys_mem_phys(bits, me, a0));
        }
        self.pure_call(bits, me, uptime_ms, nr, a0, a1, a2, a3)
    }

    /// Receive on the endpoint in a slot; the message goes to `ptr`.
    pub fn sys_recv(&mut self, bits: &mut [u64], me: TaskId, slot: u64, ptr: u64) -> (r: Action)
        requires
            old(self).wf(old(bits)@),
            old(self).can_count(),
            old(self).has_ids(),
            old(self).sched.task(me) is Some,
            old(self).sched.task(me)->0.ipc_inbox is None,
        ensures
            final(self).wf(final(bits)@),
            final(self).recv_done(old(self), old(bits)@, final(bits)@, me, slot, ptr, r),
    {
        let e: u32 = match self.lookup_endpoint(me, slot, RIGHT_RECV) {
            None => {
                return Action::Return(EPERM);
            },
            Some(e) => e,
        };
        if !syscall::user_range_ok(ptr, 32) {
            return Action::Return(EFAULT);
        }
        match self.recv_from(bits, me, e) {
            Received::Wait => Action::Wait { ep: e, ptr },
            Received::Got { sender, words } => Action::Store { ptr, words, count: 4, value: sender as i64 },
        }
    }

    /// The calls that change nothing by themselves.
    fn pure_call(
        &self,
        bits: &[u64],
        me: TaskId,
        uptime_ms: u64,
        nr: u64,
        a0: u64,
        a1: u64,
        a2: u64,
        a3: u64,
    ) -> (r: Action)
        requires
            self.wf(bits@),
            self.sched.task(me) is Some,
        ensures
            self.asked_for(me, uptime_ms, nr, a0, a1, a2, a3, r),
    {
        if nr == SYS_LOG {
            if syscall::user_range_ok(a0, a1) {
                Action::Log { ptr: a0, len: a1 }
            } else {
                Action::Return(EFAULT)
            }
        } else if nr == SYS_EXIT {
            Action::Exit(a0 as i64)
        } else if nr == SYS_YIELD {
            Action::Yield
        } else if nr == SYS_SLEEP {
            Action::Sleep(
                if a0 < MAX_SLEEP {
                    a0
                } else {
                    MAX_SLEEP
                },
            )
        } else if nr == SYS_INFO {
            if syscall::user_range_ok(a0, 16) {
                let words: [u64; 4] = [uptime_ms, me as u64, 0, 0];
                assert(words@ =~= seq![uptime_ms, me as u64, 0, 0]);
                Action::Store { ptr: a0, words, count: 2, value: 0 }
            } else {
                Action::Return(EFAULT)
            }
        } else if nr == SYS_MEM_MAP {
            match self.sys_mem_map(bits, me, a0, a1) {
                Ok(m) => Action::Place(m),
                Err(e) => Action::Return(e),
            }
        } else if nr == SYS_DEV_INFO {
            match self.lookup(me, a0, 0) {
                Some(Capability { object: Object::Device(d), .. }) => if syscall::user_range_ok(a1, 112) {
                    Action::Describe { device: d, ptr: a1 }
                } else {
                    Action::Return(EFAULT)
                },
                _ => Action::Return(EPERM),
            }
        } else if nr == SYS_DEV_MAP {
            match self.lookup(me, a0, 0) {
                Some(Capability { object: Object::Device(d), .. }) => if a1 < 6 {
                    Action::MapBar { device: d, bar: a1 }
                } else {
                    Action::Return(EINVAL)
                },
                _ => Action::Return(EPERM),
            }
        } else if nr == SYS_SPAWN {
            let name_ptr: u64 = a3 % 0x1_0000_0000_0000;
            let name_len: u64 = a3 / 0x1_0000_0000_0000;
            match self.check_spawn(bits, me, a0, a1, a2, name_len) {
                Err(e) => Action::Return(e),
                Ok(image) => if syscall::user_range_ok(name_ptr, name_len) {
                    Action::Spawn { image, size: a2, name_ptr, name_len }
                } else {
                    Action::Return(EFAULT)
                },
            }
        } else if nr == SYS_IRQ_BIND {
            match (self.lookup(me, a0, RIGHT_RECV), self.lookup_endpoint(me, a1, RIGHT_SEND)) {
                (Some(Capability { object: Object::Irq(irq), .. }), Some(ep)) => Action::Bind { irq, ep },
                _ => Action::Return(EPERM),
            }
        } else if nr == SYS_IRQ_ACK {
            match self.lookup(me, a0, RIGHT_RECV) {
                Some(Capability { object: Object::Irq(i), .. }) => Action::Ack(i),
                _ => Action::Return(EPERM),
            }
        } else if nr == SYS_DEV_IRQ {
            match self.lookup(me, a0, 0) {
                Some(Capability { object: Object::Device(d), .. }) => Action::NewIrq(d),
                _ => Action::Return(EPERM),
            }
        } else if nr == SYS_PORT_IN {
            match self.lookup(me, a0, RIGHT_MAP_READ) {
                Some(Capability { object: Object::Port { base, len }, .. }) => match port_number(
                    base,
                    len,
                    a1,
                    a2,
                ) {
                    Some(port) => Action::PortIn { port, width: a2 },
                    None => Action::Return(EINVAL),
                },
                _ => Action::Return(EPERM),
            }
        } else if nr == SYS_PORT_OUT {
            match self.lookup(me, a0, RIGHT_MAP_WRITE) {
                Some(Capability { object: Object::Port { base, len }, .. }) => match port_number(
                    base,
                    len,
                    a1,
                    a2,
                ) {
                    Some(port) => Action::PortOut { port, width: a2, value: (a3 % 0x1_0000_0000) as u32 },
                    None => Action::Return(EINVAL),
                },
                _ => Action::Return(EPERM),
            }
        } else if nr == SYS_SPAWN_DESC {
            if syscall::user_range_ok(a0, 64) {
                Action::ReadSpawn { ptr: a0 }
            } else {
                Action::Return(EFAULT)
            }
        } else {
            Action::Unknown(nr)
        }
    }
}

/// The capabilities of a descriptor are the ones the spawner listed, in order,
/// each derived from the spawner's own table.
pub proof fn lemma_descriptor(
    k: &Kernel,
    me: TaskId,
    d: Seq<u64>,
    control: Cap,
    image: Cap,
    size: u64,
    name: Span,
    grants: Seq<Grant>,
    args: Span,
    n: int,
)
    requires
        calls::is_descriptor(d, control, image, size, name, grants, args),
        grants.len() <= MAX_SPAWN_GRANTS,
        0 <= n <= grants.len(),
    ensures
        ({
            let got = k.granted(me, d.subrange(8, 8 + 2 * grants.len() as int), n);
            let from = |i: int| obj::derived(k.caps_of(me), grants[i].cap.0, Rights(grants[i].rights));
            &&& got is Some <==> forall|i: int| 0 <= i < n ==> #[trigger] from(i) is Some
            &&& got matches Some(s) ==> s.len() == n && forall|i: int|
                0 <= i < n ==> Some(#[trigger] s[i]) == from(i)
        }),
    decreases n,
{
    let pairs = d.subrange(8, 8 + 2 * grants.len() as int);
    let from = |i: int| obj::derived(k.caps_of(me), grants[i].cap.0, Rights(grants[i].rights));
    if n > 0 {
        lemma_descriptor(k, me, d, control, image, size, name, grants, args, n - 1);
        let g = grants[n - 1];
        assert(pairs[2 * n - 2] == d[8 + 2 * (n - 1)] && pairs[2 * n - 1] == d[9 + 2 * (n - 1)]);
        assert(abi::low32(pairs[2 * n - 2]) == g.cap.0 && abi::low32(pairs[2 * n - 1]) == g.rights);
        assert(from(n - 1) == obj::derived(k.caps_of(me), g.cap.0, Rights(g.rights)));
        let prev = k.granted(me, pairs, n - 1);
        if prev is None {
            let i = choose|i: int| 0 <= i < n - 1 && #[trigger] from(i) is None;
            assert(from(i) is None);
        }
    }
}

/// Spawning never widens authority: every capability a service is given is for
/// an object the spawner holds, with `GRANT`, and carries no right that the
/// spawner lacks.
pub proof fn lemma_spawn_narrows(k: &Kernel, me: TaskId, pairs: Seq<u64>, n: int, i: int)
    requires
        0 <= i < n,
        k.granted(me, pairs, n) is Some,
    ensures
        ({
            let c = (k.granted(me, pairs, n)->0)[i];
            let own = obj::in_slot(k.caps_of(me), abi::low32(pairs[2 * i]));
            &&& (k.granted(me, pairs, n)->0).len() == n
            &&& own is Some
            &&& own->0.object == c.object
            &&& own->0.rights.has(Rights(RIGHT_GRANT))
            &&& own->0.rights.has(c.rights)
        }),
    decreases n,
{
    lemma_granted_len(k, me, pairs, n);
    if i < n - 1 {
        lemma_spawn_narrows(k, me, pairs, n - 1, i);
    } else {
        obj::lemma_derive_narrows(
            k.caps_of(me),
            abi::low32(pairs[2 * i]),
            Rights(abi::low32(pairs[2 * i + 1])),
        );
    }
}

/// No task but `me` has come, gone or has another capability than before.
pub open spec fn others_keep(k0: &Kernel, k1: &Kernel, me: TaskId) -> bool {
    forall|t: TaskId|
        t != me ==> {
            &&& (#[trigger] k1.sched.task(t)) is Some <==> k0.sched.task(t) is Some
            &&& k0.sched.task(t) is Some ==> k1.caps_of(t) == k0.caps_of(t)
        }
}

/// What may turn up in a table through a system call: a capability that came
/// with a message to an endpoint the task may receive on, or one for an object
/// that the call made.
pub open spec fn lawfully_got(k0: &Kernel, me: TaskId, nr: u64, a0: u64, c: Capability) -> bool {
    if nr == SYS_RECV {
        k0.endpoint_in(me, a0, RIGHT_RECV) matches Some(e) && k0.eps.eps@[e as int].queue@.len() > 0
            && k0.eps.eps@[e as int].queue@[0].cap == Some(c)
    } else if nr == SYS_MEM_CREATE || nr == SYS_MEM_CREATE_DMA {
        c.object matches Object::Memory(id) && !k0.mem.live(id as int)
    } else {
        nr == SYS_EP_CREATE && c.object == Object::Endpoint(k0.eps.eps@.len() as u32)
    }
}

/// One task was changed, but not who it is and not its capabilities.
proof fn lemma_caps_kept(k0: &Kernel, k1: &Kernel, p: int, me: TaskId)
    requires
        k0.sched.wf(),
        0 <= p < k0.sched.tasks@.len(),
        k1.sched.tasks@ =~= k0.sched.tasks@.update(p, k1.sched.tasks@[p]),
        k1.sched.tasks@[p].id == k0.sched.tasks@[p].id,
        k1.sched.tasks@[p].caps@ == k0.sched.tasks@[p].caps@ || k0.sched.tasks@[p].id == me,
    ensures
        others_keep(k0, k1, me),
        k0.sched.task(me) is Some && k1.sched.tasks@[p].caps@ == k0.sched.tasks@[p].caps@ ==> k1.caps_of(me)
            == k0.caps_of(me),
        k0.sched.tasks@[p].id == me ==> k1.caps_of(me) == k1.sched.tasks@[p].caps@,
{
    let ts = k0.sched.tasks@;
    let us = k1.sched.tasks@;
    sched::lemma_found_same(ts, us, p);
    assert forall|t: TaskId| t != me implies {
        &&& (#[trigger] k1.sched.task(t)) is Some <==> k0.sched.task(t) is Some
        &&& k0.sched.task(t) is Some ==> k1.caps_of(t) == k0.caps_of(t)
    } by {
        sched::lemma_pos(ts, t, 0);
        assert(sched::pos(us, t, 0) == sched::pos(ts, t, 0));
    }
    assert(sched::pos(us, me, 0) == sched::pos(ts, me, 0));
    sched::lemma_pos(ts, me, 0);
    if ts[p].id == me {
        let q = sched::pos(ts, me, 0);
        if q < p {
            assert(ts[q].id < ts[p].id);
        }
        assert(q == p);
    }
}

/// Sending leaves every table as it is: what is sent is only in the queue, or in
/// the receiver's inbox.
proof fn lemma_sent_keeps(k0: &Kernel, k1: &Kernel, e: u32, msg: Message, r: i64, me: TaskId)
    requires
        k0.sched.wf(),
        k0.sched.task(me) is Some,
        k1.sent(k0, e, msg, r),
    ensures
        others_keep(k0, k1, me),
        k1.caps_of(me) == k0.caps_of(me),
{
    let t = k0.eps.target(e) as int;
    let ts = k0.sched.tasks@;
    let rxs = k0.eps.eps@[t].receivers@;
    let k = ipc::first_blocked(ts, rxs, 0);
    ipc::lemma_first_blocked(ts, rxs, 0);
    if k < rxs.len() {
        let p = sched::pos(ts, rxs[k], 0);
        sched::lemma_pos(ts, rxs[k], 0);
        lemma_caps_kept(k0, k1, p, me);
    }
}

/// There is no ambient authority: whatever system call a task makes, no other
/// task's capabilities change, and whatever appears in its own table came with a
/// message or is for an object that the call itself made.
pub proof fn lemma_no_ambient_authority(
    k0: &Kernel,
    k1: &Kernel,
    b0: Seq<u64>,
    b1: Seq<u64>,
    me: TaskId,
    uptime_ms: u64,
    nr: u64,
    a0: u64,
    a1: u64,
    a2: u64,
    a3: u64,
    r: Action,
    slot: CapSlot,
)
    requires
        k0.wf(b0),
        k0.sched.task(me) is Some,
        k1.dispatched(k0, b0, b1, me, uptime_ms, nr, a0, a1, a2, a3, r),
    ensures
        others_keep(k0, k1, me),
        obj::in_slot(k1.caps_of(me), slot) matches Some(c) ==> obj::in_slot(k0.caps_of(me), slot) == Some(c)
            || lawfully_got(k0, me, nr, a0, c),
{
    let ts = k0.sched.tasks@;
    let p = sched::pos(ts, me, 0);
    sched::lemma_pos(ts, me, 0);
    let caps = k0.caps_of(me);
    obj::lemma_free_slot(caps, 0);
    if nr == SYS_SEND {
        if let Some(e) = k0.endpoint_in(me, a0, RIGHT_SEND) {
            let v = r->Return_0;
            let msg = choose|msg: Message| #[trigger]
                k1.sent(k0, e, msg, v) && msg.sender == me && msg.words@ == seq![a1, a2, a3, NO_CAP]
                    && msg.cap is None;
            lemma_sent_keeps(k0, k1, e, msg, v, me);
        }
    } else if nr == SYS_SEND_CAP {
        let v = r->Return_0;
        if let (Some(e), Some(c)) = (
            k0.endpoint_in(me, a0, RIGHT_SEND),
            obj::derived(k0.caps_of(me), abi::low32(a1), Rights(abi::low32(a2))),
        ) {
            let msg = choose|msg: Message| #[trigger]
                k1.sent(k0, e, msg, v) && msg.sender == me && msg.words@ == seq![a3, 0, 0, NO_CAP]
                    && msg.cap == Some(c);
            lemma_sent_keeps(k0, k1, e, msg, v, me);
        }
    } else if nr == SYS_RECV || nr == SYS_CAP_DROP || nr == SYS_MEM_CREATE || nr == SYS_MEM_CREATE_DMA || nr
        == SYS_EP_CREATE {
        if k1 != k0 {
            lemma_caps_kept(k0, k1, p, me);
        }
    }
}

/// What a spawn descriptor grants may be registered with the new service: every
/// memory object among the grants exists.
pub proof fn lemma_grants_exist(k: &Kernel, bits: Seq<u64>, me: TaskId, pairs: Seq<u64>, n: int)
    requires
        k.wf(bits),
        k.sched.task(me) is Some,
        n >= 0,
        k.granted(me, pairs, n) is Some,
    ensures
        k.all_live(k.granted(me, pairs, n)->0),
    decreases n,
{
    if n > 0 {
        lemma_grants_exist(k, bits, me, pairs, n - 1);
        k.lemma_held_live(bits, Seq::empty(), me, abi::low32(pairs[2 * n - 2]));
    }
}

proof fn lemma_granted_len(k: &Kernel, me: TaskId, pairs: Seq<u64>, n: int)
    requires
        n >= 0,
        k.granted(me, pairs, n) is Some,
    ensures
        (k.granted(me, pairs, n)->0).len() == n,
    decreases n,
{
    if n > 0 {
        lemma_granted_len(k, me, pairs, n - 1);
    }
}

} // verus!
