//! Tasks.
use vstd::prelude::*;

use crate::kernel::message::Message;
use crate::kernel::obj::{CapTable, Capability};

verus! {

pub type TaskId = u32;

/// No task.
pub const NO_TASK: TaskId = u32::MAX;

/// Bytes of a task's kernel stack.
pub const KSTACK_SIZE: usize = 0x1_0000;

#[derive(Clone, Copy, Debug, PartialEq, Eq, Structural)]
pub enum State {
    Ready,
    Running,
    /// Waiting on an endpoint.
    Blocked,
    Sleeping,
    /// Waiting for the supervisor to reap it.
    Dead,
}

/// Where a task enters ring 3.
#[derive(Clone, Copy, Debug, PartialEq, Eq, Structural)]
pub struct UserEntry {
    pub rip: u64,
    pub rsp: u64,
}

/// A memory object mapped into a task's address space.
#[derive(Clone, Copy, Debug, PartialEq, Eq, Structural)]
pub struct Mapping {
    pub object: u32,
    pub base: u64,
    pub pages: u64,
    pub writable: bool,
}

impl Mapping {
    /// First address past the mapping.
    pub open spec fn end(self) -> int {
        self.base + self.pages * 4096
    }
}

/// Where memory objects are mapped.
pub const SHARED_BASE: u64 = 0x10_0000_0000;

/// End of that part of the address space.
pub const SHARED_LIMIT: u64 = 0x4000_0000_0000;

/// Mappings by ascending address, apart from each other and inside their part
/// of the address space.
pub open spec fn maps_ok(maps: Seq<Mapping>) -> bool {
    &&& forall|i: int|
        0 <= i < maps.len() ==> SHARED_BASE <= (#[trigger] maps[i]).base && maps[i].end() <= SHARED_LIMIT
    &&& forall|i: int, j: int|
        #![trigger maps[i], maps[j]]
        0 <= i < j < maps.len() ==> maps[i].end() <= maps[j].base
}

/// Where a mapping of `pages` more pages goes: right after the last one, if
/// there is room.
pub open spec fn next_place(maps: Seq<Mapping>, pages: int) -> Option<u64> {
    let base = if maps.len() == 0 {
        SHARED_BASE as int
    } else {
        maps.last().end()
    };
    if base + pages * 4096 <= SHARED_LIMIT {
        Some(base as u64)
    } else {
        None
    }
}

/// What the scheduler, the capability checks and the message passing know of a
/// task.
pub struct Task {
    pub id: TaskId,
    pub name: &'static str,
    pub state: State,
    pub user: Option<UserEntry>,
    pub caps: CapTable,
    /// Memory objects mapped into the task's address space, by address.
    pub maps: Vec<Mapping>,
    pub sleep_until: u64,
    pub exit_code: Option<i64>,
    pub quantum_left: u32,
    /// Message slot for IPC: filled by a sender while we are blocked in recv.
    pub ipc_inbox: Option<Message>,
    /// The service, if any, that the task is an instance of, for supervision.
    pub service: Option<usize>,
    /// CPU whose stack the task is (or was until the switch finished) running
    /// on.
    pub on_cpu: Option<u32>,
    /// A CPU's idle task: never queued, run only when nothing else is ready.
    pub is_idle: bool,
}

/// A task that holds nothing: no capability, no mapping, no message, and no part
/// of a service.
pub open spec fn bare(t: Task) -> bool {
    &&& t.user is None
    &&& t.caps@ == Seq::<Option<Capability>>::empty()
    &&& t.maps@ == Seq::<Mapping>::empty()
    &&& t.sleep_until == 0
    &&& t.exit_code is None
    &&& t.quantum_left == 0
    &&& t.ipc_inbox is None
    &&& t.service is None
}

impl Task {
    /// A kernel thread, ready to run.
    pub fn new_kernel(id: TaskId, name: &'static str) -> (r: Self)
        ensures
            r.id == id,
            r.name == name,
            r.state == State::Ready,
            r.user is None,
            r.caps@ == Seq::<Option<Capability>>::empty(),
            r.maps@ == Seq::<Mapping>::empty(),
            r.sleep_until == 0,
            r.exit_code is None,
            r.quantum_left == 0,
            r.ipc_inbox is None,
            r.service is None,
            r.on_cpu is None,
            !r.is_idle,
    {
        Task {
            id,
            name,
            state: State::Ready,
            user: None,
            caps: CapTable::new(),
            maps: Vec::new(),
            sleep_until: 0,
            exit_code: None,
            quantum_left: 0,
            ipc_inbox: None,
            service: None,
            on_cpu: None,
            is_idle: false,
        }
    }

    /// A CPU's boot context: already running.
    pub fn boot(id: TaskId) -> (r: Self)
        ensures
            r.id == id,
            r.name@ == "idle"@,
            r.state == State::Running,
            r.user is None,
            r.caps@ == Seq::<Option<Capability>>::empty(),
            r.maps@ == Seq::<Mapping>::empty(),
            r.sleep_until == 0,
            r.exit_code is None,
            r.quantum_left == 0,
            r.ipc_inbox is None,
            r.service is None,
            r.on_cpu is None,
            r.is_idle,
    {
        Task {
            id,
            name: "idle",
            state: State::Running,
            user: None,
            caps: CapTable::new(),
            maps: Vec::new(),
            sleep_until: 0,
            exit_code: None,
            quantum_left: 0,
            ipc_inbox: None,
            service: None,
            on_cpu: None,
            is_idle: true,
        }
    }

    /// Where a mapping of `pages` more pages goes.
    pub fn place(&self, pages: u64) -> (r: Option<u64>)
        requires
            maps_ok(self.maps@),
            pages <= 0x100_0000_0000,
        ensures
            r == next_place(self.maps@, pages as int),
    {
        let n: usize = self.maps.len();
        let base: u64 = if n == 0 {
            SHARED_BASE
        } else {
            let m: Mapping = self.maps[n - 1];
            assert(self.maps@[n - 1].end() <= SHARED_LIMIT);
            m.base + m.pages * 4096
        };
        if base + pages * 4096 <= SHARED_LIMIT {
            Some(base)
        } else {
            None
        }
    }

    pub fn is_user(&self) -> (r: bool)
        ensures
            r == (self.user is Some),
    {
        self.user.is_some()
    }
}

/// Mappings never overlap: one more at the next place is apart from all others.
pub proof fn lemma_place_apart(maps: Seq<Mapping>, m: Mapping)
    requires
        maps_ok(maps),
        next_place(maps, m.pages as int) == Some(m.base),
    ensures
        maps_ok(maps.push(m)),
{
    let s = maps.push(m);
    if maps.len() > 0 {
        assert(maps[maps.len() - 1].end() <= SHARED_LIMIT);
        assert(SHARED_BASE <= maps[maps.len() - 1].base);
    }
    assert forall|i: int, j: int|
        #![trigger s[i], s[j]]
        0 <= i < j < s.len() implies s[i].end() <= s[j].base by {
        if j == maps.len() {
            assert(maps[i] == s[i]);
            if i < maps.len() - 1 {
                assert(maps[i].end() <= maps[maps.len() - 1].base);
            }
        } else {
            assert(maps[i].end() <= maps[j].base);
        }
    }
}

/// The first mapping goes to the start of its part of the address space and every
/// later one right behind the last. A mapping is refused only if it would reach
/// past the end of that part.
pub proof fn lemma_places(maps: Seq<Mapping>, m: Mapping, more: int)
    requires
        maps_ok(maps),
        0 <= more,
        next_place(maps, m.pages as int) == Some(m.base),
    ensures
        maps.len() == 0 ==> m.base == 0x10_0000_0000,
        maps.len() > 0 ==> m.base == maps.last().base + maps.last().pages * 0x1000,
        m.base + m.pages * 0x1000 <= 0x4000_0000_0000,
        next_place(maps.push(m), more) is None <==> m.base + (m.pages + more) * 0x1000 > 0x4000_0000_0000,
        next_place(maps.push(m), more) matches Some(p) ==> p == m.base + m.pages * 0x1000,
{
    assert(maps.push(m).last() == m);
}

} // verus!
