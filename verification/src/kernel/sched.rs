//! Preemptive round-robin scheduler for many CPUs.
//!
//! One run queue; each CPU has its own idle task and current task. A task that
//! is being switched away from is *not* requeued until the CPU has actually
//! left its stack (`finish_switch`), and `wake` never enqueues a task that is
//! still on a CPU: together these keep another core from resuming a half-saved
//! context.
use std::collections::VecDeque;

use vstd::prelude::*;

use crate::kernel::message::Message;
use crate::kernel::task;
use crate::kernel::task::{State, Task, TaskId, NO_TASK};

verus! {

pub const QUANTUM_TICKS: u32 = 10;

/// Timer ticks per second.
pub const TIMER_HZ: u64 = 1000;

/// The exit code of a task that was killed.
pub const CRASHED: i64 = -1;

/// What a CPU knows about the tasks it runs.
#[derive(Clone, Copy, Debug, PartialEq, Eq, Structural)]
pub struct Cpu {
    pub cpu_id: u32,
    pub current: TaskId,
    pub idle_task: TaskId,
    /// Task this CPU is switching away from, until the switch has finished.
    pub prev_pending: TaskId,
    pub switches: u64,
}

impl Cpu {
    /// The task that runs.
    pub fn current_id(&self) -> (r: TaskId)
        ensures
            r == self.current,
    {
        self.current
    }

    pub fn cpu_id(&self) -> (r: u32)
        ensures
            r == self.cpu_id,
    {
        self.cpu_id
    }
}

/// Save the context of `prev`, load that of `next`.
#[derive(Clone, Copy, Debug, PartialEq, Eq, Structural)]
pub struct Switch {
    pub prev: TaskId,
    pub next: TaskId,
}

/// Where a task goes in a table by ascending id: the first place from `i` on
/// that is not before a smaller id.
pub open spec fn place_of(ts: Seq<Task>, id: TaskId, i: int) -> int
    decreases ts.len() - i,
{
    if i >= ts.len() {
        ts.len() as int
    } else if ts[i].id < id {
        place_of(ts, id, i + 1)
    } else {
        i
    }
}

pub proof fn lemma_place_of(ts: Seq<Task>, id: TaskId, i: int)
    requires
        0 <= i <= ts.len(),
    ensures
        i <= place_of(ts, id, i) <= ts.len(),
    decreases ts.len() - i,
{
    if i < ts.len() && ts[i].id < id {
        lemma_place_of(ts, id, i + 1);
    }
}

pub struct Scheduler {
    /// Every task, by ascending id.
    pub tasks: Vec<Task>,
    pub ready: VecDeque<TaskId>,
    pub reap: VecDeque<TaskId>,
    pub next_id: TaskId,
    /// Task that reaps dead tasks and restarts supervised services.
    pub supervisor: TaskId,
}

/// Position of task `id` at or after `i`, or the length when it is not there.
pub open spec fn pos(ts: Seq<Task>, id: TaskId, i: int) -> int
    decreases ts.len() - i,
{
    if i >= ts.len() {
        ts.len() as int
    } else if ts[i].id == id {
        i
    } else {
        pos(ts, id, i + 1)
    }
}

pub proof fn lemma_pos(ts: Seq<Task>, id: TaskId, i: int)
    requires
        0 <= i <= ts.len(),
    ensures
        i <= pos(ts, id, i) <= ts.len(),
        pos(ts, id, i) < ts.len() ==> ts[pos(ts, id, i)].id == id,
        forall|k: int| i <= k < pos(ts, id, i) ==> (#[trigger] ts[k]).id != id,
    decreases ts.len() - i,
{
    if i < ts.len() && ts[i].id != id {
        lemma_pos(ts, id, i + 1);
    }
}

/// A task that waits for a CPU.
pub open spec fn runnable(t: Task) -> bool {
    t.state == State::Ready && t.on_cpu is None
}

/// Task `id` exists and waits for a CPU.
pub open spec fn is_runnable(ts: Seq<Task>, id: TaskId) -> bool {
    pos(ts, id, 0) < ts.len() && runnable(ts[pos(ts, id, 0)])
}

/// First position in the queue, at or after `i`, of a task that waits for a
/// CPU, or the length.
pub open spec fn next_ready(ts: Seq<Task>, q: Seq<TaskId>, i: int) -> int
    decreases q.len() - i,
{
    if i >= q.len() {
        q.len() as int
    } else if is_runnable(ts, q[i]) {
        i
    } else {
        next_ready(ts, q, i + 1)
    }
}

proof fn lemma_next_ready(ts: Seq<Task>, q: Seq<TaskId>, i: int)
    requires
        0 <= i <= q.len(),
    ensures
        i <= next_ready(ts, q, i) <= q.len(),
        next_ready(ts, q, i) < q.len() ==> is_runnable(ts, q[next_ready(ts, q, i)]),
        forall|k: int| i <= k < next_ready(ts, q, i) ==> !is_runnable(ts, #[trigger] q[k]),
    decreases q.len() - i,
{
    if i < q.len() && !is_runnable(ts, q[i]) {
        lemma_next_ready(ts, q, i + 1);
    }
}

/// Ids ascend.
pub open spec fn sorted(ts: Seq<Task>) -> bool {
    forall|i: int, j: int|
        #![trigger ts[i], ts[j]]
        0 <= i < j < ts.len() ==> ts[i].id < ts[j].id
}

/// No runnable task is lost: each one, idle tasks aside, is in the queue.
pub open spec fn queued(ts: Seq<Task>, q: Seq<TaskId>) -> bool {
    forall|i: int|
        0 <= i < ts.len() && runnable(#[trigger] ts[i]) && !ts[i].is_idle ==> q.contains(ts[i].id)
}

/// `b` is `a` but for when and where it runs and how it ended: what the task
/// holds and what was sent to it is the same, and it waits for a message only if
/// it did before.
pub open spec fn keeps(a: Task, b: Task) -> bool {
    &&& b.id == a.id
    &&& b.name == a.name
    &&& b.user == a.user
    &&& b.caps == a.caps
    &&& b.maps == a.maps
    &&& b.ipc_inbox == a.ipc_inbox
    &&& b.service == a.service
    &&& b.is_idle == a.is_idle
    &&& b.state == State::Blocked ==> a.state == State::Blocked
}

/// The tasks are the same ones, and all of them keep what they hold.
pub open spec fn only_scheduled(a: Seq<Task>, b: Seq<Task>) -> bool {
    &&& a.len() == b.len()
    &&& forall|i: int| 0 <= i < a.len() ==> keeps(a[i], #[trigger] b[i])
}

impl Scheduler {
    pub open spec fn wf(&self) -> bool {
        &&& sorted(self.tasks@)
        &&& forall|i: int| 0 <= i < self.tasks@.len() ==> (#[trigger] self.tasks@[i]).id < self.next_id
        &&& queued(self.tasks@, self.ready@)
    }

    /// What is known of task `id`.
    pub open spec fn task(&self, id: TaskId) -> Option<Task> {
        let i = pos(self.tasks@, id, 0);
        if i < self.tasks@.len() {
            Some(self.tasks@[i])
        } else {
            None
        }
    }

    pub fn new() -> (r: Self)
        ensures
            r.wf(),
            r.tasks@.len() == 0,
            r.ready@.len() == 0,
            r.reap@.len() == 0,
            r.next_id == 0,
            r.supervisor == NO_TASK,
    {
        Scheduler {
            tasks: Vec::new(),
            ready: VecDeque::new(),
            reap: VecDeque::new(),
            next_id: 0,
            supervisor: NO_TASK,
        }
    }

    /// Position of a task in the table, or the table's length.
    pub fn find(&self, id: TaskId) -> (r: usize)
        ensures
            r == pos(self.tasks@, id, 0),
            r <= self.tasks@.len(),
            r < self.tasks@.len() ==> self.tasks@[r as int].id == id,
    {
        let mut i: usize = 0;
        while i < self.tasks.len()
            invariant
                i <= self.tasks@.len(),
                pos(self.tasks@, id, 0) == pos(self.tasks@, id, i as int),
            decreases self.tasks@.len() - i,
        {
            if self.tasks[i].id == id {
                return i;
            }
            i = i + 1;
        }
        i
    }

    /// Add a task whose id is larger than any other.
    fn add_last(&mut self, t: Task)
        requires
            old(self).wf(),
            t.id == old(self).next_id,
            old(self).next_id < NO_TASK,
            runnable(t) && !t.is_idle ==> old(self).ready@.contains(t.id),
        ensures
            final(self).wf(),
            final(self).tasks@ == old(self).tasks@.push(t),
            final(self).ready@ == old(self).ready@,
            final(self).reap@ == old(self).reap@,
            final(self).next_id == old(self).next_id + 1,
            final(self).supervisor == old(self).supervisor,
            final(self).task(t.id) == Some(t),
    {
        proof {
            lemma_pos(self.tasks@.push(t), t.id, 0);
        }
        self.tasks.push(t);
        self.next_id = self.next_id + 1;
        proof {
            let ts = self.tasks@;
            let n = ts.len() - 1;
            let p = pos(ts, t.id, 0);
            assert(ts[n].id == t.id);
            if p < n {
                assert(old(self).tasks@[p].id < old(self).next_id);
            }
            assert forall|i: int|
                0 <= i < ts.len() && runnable(#[trigger] ts[i]) && !ts[i].is_idle implies self.ready@.contains(
                ts[i].id,
            ) by {
                if i < n {
                    assert(ts[i] == old(self).tasks@[i]);
                }
            }
        }
    }

    /// Turn a CPU's boot context into its idle task.
    pub fn register_idle_cpu(&mut self, cpu: &mut Cpu) -> (id: TaskId)
        requires
            old(self).wf(),
            old(self).next_id < NO_TASK,
        ensures
            final(self).wf(),
            id == old(self).next_id,
            final(self).next_id == id + 1,
            final(self).tasks@.len() == old(self).tasks@.len() + 1,
            final(self).tasks@.drop_last() == old(self).tasks@,
            final(self).task(id) == Some(final(self).tasks@.last()),
            final(self).tasks@.last().id == id,
            final(self).tasks@.last().state == State::Running,
            final(self).tasks@.last().on_cpu == Some(old(cpu).cpu_id),
            final(self).tasks@.last().is_idle,
            final(self).tasks@.last().name@ == "idle"@,
            task::bare(final(self).tasks@.last()),
            final(self).ready@ == old(self).ready@,
            final(self).reap@ == old(self).reap@,
            final(self).supervisor == old(self).supervisor,
            *final(cpu) == (Cpu { current: id, idle_task: id, ..*old(cpu) }),
    {
        let id: TaskId = self.next_id;
        let mut t: Task = Task::boot(id);
        t.on_cpu = Some(cpu.cpu_id);
        self.add_last(t);
        cpu.current = id;
        cpu.idle_task = id;
        assert(self.tasks@.drop_last() =~= old(self).tasks@);
        id
    }

    /// Start a kernel thread.
    pub fn spawn_kernel(&mut self, name: &'static str) -> (id: TaskId)
        requires
            old(self).wf(),
            old(self).next_id < NO_TASK,
        ensures
            final(self).wf(),
            id == old(self).next_id,
            final(self).next_id == id + 1,
            final(self).tasks@.len() == old(self).tasks@.len() + 1,
            final(self).tasks@.drop_last() == old(self).tasks@,
            final(self).task(id) == Some(final(self).tasks@.last()),
            final(self).tasks@.last().id == id,
            final(self).tasks@.last().name == name,
            runnable(final(self).tasks@.last()),
            !final(self).tasks@.last().is_idle,
            task::bare(final(self).tasks@.last()),
            final(self).ready@ == old(self).ready@.push(id),
            final(self).reap@ == old(self).reap@,
            final(self).supervisor == old(self).supervisor,
    {
        let id: TaskId = self.next_id;
        let t: Task = Task::new_kernel(id, name);
        self.push_ready(id);
        self.add_last(t);
        assert(self.tasks@.drop_last() =~= old(self).tasks@);
        id
    }

    fn push_ready(&mut self, id: TaskId)
        requires
            old(self).wf(),
        ensures
            final(self).wf(),
            final(self).tasks@ == old(self).tasks@,
            final(self).ready@ == old(self).ready@.push(id),
            final(self).ready@.contains(id),
            final(self).reap@ == old(self).reap@,
            final(self).next_id == old(self).next_id,
            final(self).supervisor == old(self).supervisor,
    {
        self.ready.push_back(id);
        proof {
            lemma_push_contains(old(self).ready@, id);
        }
    }

    /// Take the next task id without publishing a task. A ring-3 service
    /// reserves its id first so it can finish the address space before the task
    /// becomes reachable by any CPU.
    pub fn reserve_task_id(&mut self) -> (id: TaskId)
        requires
            old(self).wf(),
            old(self).next_id < NO_TASK,
        ensures
            final(self).wf(),
            id == old(self).next_id,
            final(self).next_id == id + 1,
            final(self).tasks@ == old(self).tasks@,
            final(self).ready@ == old(self).ready@,
            final(self).reap@ == old(self).reap@,
            final(self).supervisor == old(self).supervisor,
            final(self).task(id) is None,
    {
        let id: TaskId = self.next_id;
        self.next_id = self.next_id + 1;
        proof {
            lemma_pos(self.tasks@, id, 0);
            let p = pos(self.tasks@, id, 0);
            if p < self.tasks@.len() {
                assert(old(self).tasks@[p].id < old(self).next_id);
            }
        }
        id
    }

    /// Publish a task whose id was reserved: insert it and make it runnable.
    pub fn publish_task(&mut self, t: Task, id: TaskId)
        requires
            old(self).wf(),
            id < old(self).next_id,
            old(self).task(id) is None,
            t.on_cpu is None,
        ensures
            final(self).wf(),
            final(self).tasks@ == old(self).tasks@.insert(
                place_of(old(self).tasks@, id, 0),
                Task { id, state: State::Ready, ..t },
            ),
            final(self).task(id) == Some(Task { id, state: State::Ready, ..t }),
            forall|k: TaskId| k != id ==> #[trigger] final(self).task(k) == old(self).task(k),
            final(self).ready@ == old(self).ready@.push(id),
            final(self).reap@ == old(self).reap@,
            final(self).next_id == old(self).next_id,
            final(self).supervisor == old(self).supervisor,
    {
        let mut t: Task = t;
        t.id = id;
        t.state = State::Ready;
        let ghost ts = self.tasks@;
        proof {
            lemma_pos(ts, id, 0);
        }
        self.push_ready(id);
        let mut i: usize = 0;
        while i < self.tasks.len() && self.tasks[i].id < id
            invariant
                i <= self.tasks@.len(),
                self.tasks@ == ts,
                place_of(ts, id, 0) == place_of(ts, id, i as int),
                forall|k: int| 0 <= k < i ==> (#[trigger] ts[k]).id < id,
            decreases self.tasks@.len() - i,
        {
            i = i + 1;
        }
        let ghost us = ts.insert(i as int, t);
        proof {
            assert forall|k: int| i <= k < ts.len() implies (#[trigger] ts[k]).id > id by {
                if k > i {
                    assert(ts[i as int].id < ts[k].id);
                }
            }
        }
        self.tasks.insert(i, t);
        proof {
            lemma_inserted(ts, t, i as int);
            assert(sorted(us)) by {
                assert forall|a: int, b: int|
                    #![trigger us[a], us[b]]
                    0 <= a < b < us.len() implies us[a].id < us[b].id by {
                    if a != i && b != i {
                        let x = if a < i {
                            a
                        } else {
                            a - 1
                        };
                        let y = if b < i {
                            b
                        } else {
                            b - 1
                        };
                        assert(us[a] == ts[x] && us[b] == ts[y]);
                    } else if a == i {
                        assert(us[b] == ts[b - 1]);
                    } else {
                        assert(us[a] == ts[a]);
                    }
                }
            }
            assert forall|a: int| 0 <= a < us.len() implies (#[trigger] us[a]).id < self.next_id by {
                if a < i {
                    assert(us[a] == ts[a]);
                } else if a > i {
                    assert(us[a] == ts[a - 1]);
                }
            }
            assert forall|a: int|
                0 <= a < us.len() && runnable(#[trigger] us[a]) && !us[a].is_idle implies self.ready@.contains(
                us[a].id,
            ) by {
                if a < i {
                    assert(us[a] == ts[a]);
                } else if a > i {
                    assert(us[a] == ts[a - 1]);
                }
            }
        }
    }

    /// The queue with its entries up to the first runnable task taken off, and
    /// that task's id, if any.
    pub fn pick_next(&mut self) -> (r: Option<TaskId>)
        requires
            sorted(old(self).tasks@),
        ensures
            final(self).tasks@ == old(self).tasks@,
            final(self).reap@ == old(self).reap@,
            final(self).next_id == old(self).next_id,
            final(self).supervisor == old(self).supervisor,
            ({
                let k = next_ready(old(self).tasks@, old(self).ready@, 0);
                if k < old(self).ready@.len() {
                    &&& r == Some(old(self).ready@[k])
                    &&& final(self).ready@ == old(self).ready@.subrange(k + 1, old(self).ready@.len() as int)
                } else {
                    &&& r is None
                    &&& final(self).ready@.len() == 0
                }
            }),
    {
        let ghost ts = self.tasks@;
        let ghost q = self.ready@;
        let ghost mut i: int = 0;
        while self.ready.len() > 0
            invariant
                ts == self.tasks@,
                ts == old(self).tasks@,
                q == old(self).ready@,
                self.reap@ == old(self).reap@,
                self.next_id == old(self).next_id,
                self.supervisor == old(self).supervisor,
                0 <= i <= q.len(),
                self.ready@ == q.subrange(i, q.len() as int),
                next_ready(ts, q, 0) == next_ready(ts, q, i),
            decreases self.ready@.len(),
        {
            let popped: Option<TaskId> = self.ready.pop_front();
            if let Some(id) = popped {
                assert(id == q[i]);
                assert(self.ready@ =~= q.subrange(i + 1, q.len() as int));
                let p: usize = self.find(id);
                if p < self.tasks.len() {
                    let st: State = self.tasks[p].state;
                    if st == State::Ready && self.tasks[p].on_cpu.is_none() {
                        return Some(id);
                    }
                }
                proof {
                    i = i + 1;
                }
            }
        }
        None
    }

    /// Whether a CPU's tasks are in the table and its current one is on it.
    pub open spec fn knows(&self, cpu: Cpu) -> bool {
        &&& self.task(cpu.current) is Some
        &&& self.task(cpu.idle_task) is Some
        &&& self.task(cpu.current)->0.on_cpu == Some(cpu.cpu_id)
    }

    /// The task a CPU runs next: the first runnable one in the queue, else the
    /// current one if it can go on, else the idle task.
    pub open spec fn choice(&self, cpu: Cpu) -> TaskId {
        let k = next_ready(self.tasks@, self.ready@, 0);
        if k < self.ready@.len() {
            self.ready@[k]
        } else if self.task(cpu.current)->0.state == State::Running {
            cpu.current
        } else {
            cpu.idle_task
        }
    }

    /// What is left of the queue once that task has been taken off.
    pub open spec fn rest(&self) -> Seq<TaskId> {
        let k = next_ready(self.tasks@, self.ready@, 0);
        if k < self.ready@.len() {
            self.ready@.subrange(k + 1, self.ready@.len() as int)
        } else {
            Seq::empty()
        }
    }

    /// `self` is `old` after a CPU picked its next task; `r` is the switch it
    /// makes, if it makes one.
    pub open spec fn scheduled(&self, old: &Scheduler, cpu0: Cpu, cpu1: Cpu, r: Option<Switch>) -> bool {
        let next = old.choice(cpu0);
        let cur = cpu0.current;
        let c = pos(old.tasks@, cur, 0);
        let n = pos(old.tasks@, next, 0);
        let ct = old.tasks@[c];
        let nt = old.tasks@[n];
        &&& self.ready@ == old.rest()
        &&& self.reap@ == old.reap@
        &&& self.next_id == old.next_id
        &&& self.supervisor == old.supervisor
        &&& if next == cur {
            &&& r is None
            &&& cpu1 == cpu0
            &&& self.tasks@ == old.tasks@.update(
                c,
                Task {
                    quantum_left: QUANTUM_TICKS,
                    state: if ct.state == State::Ready {
                        State::Running
                    } else {
                        ct.state
                    },
                    ..ct
                },
            )
        } else {
            &&& r == Some(Switch { prev: cur, next })
            &&& cpu1 == (Cpu {
                current: next,
                prev_pending: cur,
                switches: (cpu0.switches + 1) as u64,
                ..cpu0
            })
            &&& self.tasks@ == old.tasks@.update(
                c,
                Task {
                    state: if ct.state == State::Running {
                        State::Ready
                    } else {
                        ct.state
                    },
                    ..ct
                },
            ).update(
                n,
                Task {
                    state: State::Running,
                    on_cpu: Some(cpu0.cpu_id),
                    quantum_left: QUANTUM_TICKS,
                    ..nt
                },
            )
        }
    }

    /// Pick the next task for a CPU.
    pub fn schedule(&mut self, cpu: &mut Cpu) -> (r: Option<Switch>)
        requires
            old(self).wf(),
            old(self).knows(*old(cpu)),
            old(cpu).switches < u64::MAX,
        ensures
            final(self).wf(),
            only_scheduled(old(self).tasks@, final(self).tasks@),
            final(self).knows(*final(cpu)),
            final(self).scheduled(old(self), *old(cpu), *final(cpu), r),
    {
        let ghost ts = self.tasks@;
        let ghost q = self.ready@;
        let ghost k = next_ready(ts, q, 0);
        proof {
            lemma_next_ready(ts, q, 0);
        }
        let cur: TaskId = cpu.current;
        let c: usize = self.find(cur);
        let picked: Option<TaskId> = self.pick_next();
        let next: TaskId = match picked {
            Some(id) => id,
            None => if self.tasks[c].state == State::Running {
                cur
            } else {
                cpu.idle_task
            },
        };
        assert(next == old(self).choice(*old(cpu)));
        assert(self.ready@ =~= old(self).rest());
        if next == cur {
            self.tasks[c].quantum_left = QUANTUM_TICKS;
            let st: State = self.tasks[c].state;
            if st == State::Ready {
                self.tasks[c].state = State::Running;
            }
            proof {
                lemma_changed(ts, self.tasks@, c as int);
                lemma_queue_rest(ts, self.tasks@, q, k, next);
                let ct = ts[c as int];
                assert(self.tasks@ =~= ts.update(
                    c as int,
                    Task {
                        quantum_left: QUANTUM_TICKS,
                        state: if ct.state == State::Ready {
                            State::Running
                        } else {
                            ct.state
                        },
                        ..ct
                    },
                ));
            }
            return None;
        }
        let n: usize = self.find(next);
        let st: State = self.tasks[c].state;
        if st == State::Running {
            self.tasks[c].state = State::Ready;
        }
        let ghost mid = self.tasks@;
        self.tasks[n].state = State::Running;
        self.tasks[n].on_cpu = Some(cpu.cpu_id);
        self.tasks[n].quantum_left = QUANTUM_TICKS;
        cpu.current = next;
        cpu.prev_pending = cur;
        cpu.switches = cpu.switches + 1;
        proof {
            lemma_pos(ts, next, 0);
            lemma_pos(ts, cur, 0);
            lemma_changed(ts, mid, c as int);
            lemma_changed(mid, self.tasks@, n as int);
            lemma_queue_rest(ts, self.tasks@, q, k, next);
            let ct = ts[c as int];
            let nt = ts[n as int];
            assert(mid =~= ts.update(
                c as int,
                Task {
                    state: if ct.state == State::Running {
                        State::Ready
                    } else {
                        ct.state
                    },
                    ..ct
                },
            ));
            assert(self.tasks@ =~= mid.update(
                n as int,
                Task {
                    state: State::Running,
                    on_cpu: Some(cpu.cpu_id),
                    quantum_left: QUANTUM_TICKS,
                    ..nt
                },
            ));
        }
        Some(Switch { prev: cur, next })
    }

    /// `self` is `old` after task `prev`, if it is one, has left its stack.
    pub open spec fn left(&self, old: &Scheduler, prev: TaskId) -> bool {
        let p = pos(old.tasks@, prev, 0);
        let t = old.tasks@[p];
        if prev == NO_TASK || p == old.tasks@.len() {
            &&& self.tasks@ == old.tasks@
            &&& self.ready@ == old.ready@
        } else {
            &&& self.tasks@ == old.tasks@.update(p, Task { on_cpu: None, ..t })
            &&& self.ready@ == if t.state == State::Ready && !t.is_idle {
                old.ready@.push(prev)
            } else {
                old.ready@
            }
        }
    }

    /// Runs on the new context right after a switch: the previous task has left
    /// its stack, so it may now be picked up by any CPU.
    pub fn finish_switch(&mut self, cpu: &mut Cpu)
        requires
            old(self).wf(),
        ensures
            final(self).wf(),
            only_scheduled(old(self).tasks@, final(self).tasks@),
            *final(cpu) == (Cpu { prev_pending: NO_TASK, ..*old(cpu) }),
            final(self).reap@ == old(self).reap@,
            final(self).next_id == old(self).next_id,
            final(self).supervisor == old(self).supervisor,
            final(self).left(old(self), old(cpu).prev_pending),
    {
        let prev: TaskId = cpu.prev_pending;
        cpu.prev_pending = NO_TASK;
        if prev == NO_TASK {
            return ;
        }
        let p: usize = self.find(prev);
        if p < self.tasks.len() {
            let ghost ts = self.tasks@;
            let ghost q = self.ready@;
            self.tasks[p].on_cpu = None;
            let st: State = self.tasks[p].state;
            if st == State::Ready && !self.tasks[p].is_idle {
                self.ready.push_back(prev);
                proof {
                    lemma_push_contains(q, prev);
                }
            }
            proof {
                lemma_changed(ts, self.tasks@, p as int);
                lemma_queued_after(ts, self.tasks@, q, self.ready@, p as int);
            }
        }
    }

    /// Ticks a sleep of `ms` milliseconds lasts: at least one.
    pub open spec fn sleep_ticks(ms: u64) -> int {
        let t = (ms * TIMER_HZ + 999) / 1000;
        if t < 1 {
            1
        } else {
            t
        }
    }

    /// `self` is `old` after task `id` went to sleep for `ms` milliseconds at
    /// tick `now`.
    pub open spec fn asleep(&self, old: &Scheduler, id: TaskId, now: u64, ms: u64) -> bool {
        &&& self.tasks@ == old.tasks@.update(
            pos(old.tasks@, id, 0),
            Task {
                state: State::Sleeping,
                sleep_until: (now + Self::sleep_ticks(ms)) as u64,
                ..old.task(id)->0
            },
        )
        &&& self.ready@ == old.ready@
        &&& self.reap@ == old.reap@
        &&& self.next_id == old.next_id
        &&& self.supervisor == old.supervisor
    }

    /// Put a task to sleep until `ms` milliseconds after tick `now`. The caller
    /// follows up with `schedule`.
    pub fn sleep_ms(&mut self, id: TaskId, now: u64, ms: u64)
        requires
            old(self).wf(),
            old(self).task(id) is Some,
            ms * TIMER_HZ + 999 <= u64::MAX,
            now + Self::sleep_ticks(ms) <= u64::MAX,
        ensures
            final(self).wf(),
            only_scheduled(old(self).tasks@, final(self).tasks@),
            final(self).asleep(old(self), id, now, ms),
            ({
                let t = final(self).tasks@[pos(old(self).tasks@, id, 0)];
                &&& (t.sleep_until - now) * 1000 >= ms * TIMER_HZ
                &&& t.sleep_until == now + 1 || now < t.sleep_until && (t.sleep_until - now - 1) * 1000 < ms
                    * TIMER_HZ
            }),
    {
        let ticks: u64 = (ms * TIMER_HZ + 999) / 1000;
        let until: u64 = now + if ticks < 1 {
            1
        } else {
            ticks
        };
        let p: usize = self.find(id);
        let ghost ts = self.tasks@;
        self.tasks[p].state = State::Sleeping;
        self.tasks[p].sleep_until = until;
        proof {
            assert(self.tasks@ =~= ts.update(p as int, self.tasks@[p as int]));
            lemma_changed(ts, self.tasks@, p as int);
            lemma_queued_after(ts, self.tasks@, self.ready@, self.ready@, p as int);
        }
    }

    /// Mark a task blocked. The caller follows up with `schedule`.
    pub fn mark_blocked(&mut self, id: TaskId)
        requires
            old(self).wf(),
            old(self).task(id) is Some,
        ensures
            final(self).wf(),
            final(self).tasks@ == old(self).tasks@.update(
                pos(old(self).tasks@, id, 0),
                Task { state: State::Blocked, ..old(self).task(id)->0 },
            ),
            final(self).ready@ == old(self).ready@,
            final(self).reap@ == old(self).reap@,
            final(self).next_id == old(self).next_id,
            final(self).supervisor == old(self).supervisor,
    {
        let p: usize = self.find(id);
        let ghost ts = self.tasks@;
        self.tasks[p].state = State::Blocked;
        proof {
            lemma_changed(ts, self.tasks@, p as int);
            lemma_queued_after(ts, self.tasks@, self.ready@, self.ready@, p as int);
        }
    }

    /// Put a message into a task's inbox, or empty it.
    pub fn put_inbox(&mut self, id: TaskId, msg: Option<Message>)
        requires
            old(self).wf(),
            old(self).task(id) is Some,
        ensures
            final(self).wf(),
            final(self).tasks@ == old(self).tasks@.update(
                pos(old(self).tasks@, id, 0),
                Task { ipc_inbox: msg, ..old(self).task(id)->0 },
            ),
            forall|k: TaskId| #[trigger] pos(final(self).tasks@, k, 0) == pos(old(self).tasks@, k, 0),
            final(self).ready@ == old(self).ready@,
            final(self).reap@ == old(self).reap@,
            final(self).next_id == old(self).next_id,
            final(self).supervisor == old(self).supervisor,
    {
        let p: usize = self.find(id);
        let ghost ts = self.tasks@;
        self.tasks[p].ipc_inbox = msg;
        proof {
            lemma_changed(ts, self.tasks@, p as int);
            lemma_queued_after(ts, self.tasks@, self.ready@, self.ready@, p as int);
        }
    }

    /// Take what is in a task's inbox.
    pub fn take_inbox(&mut self, id: TaskId) -> (r: Option<Message>)
        requires
            old(self).wf(),
            old(self).task(id) is Some,
        ensures
            final(self).wf(),
            r == old(self).task(id)->0.ipc_inbox,
            final(self).tasks@ == old(self).tasks@.update(
                pos(old(self).tasks@, id, 0),
                Task { ipc_inbox: None, ..old(self).task(id)->0 },
            ),
            final(self).ready@ == old(self).ready@,
            final(self).reap@ == old(self).reap@,
            final(self).next_id == old(self).next_id,
            final(self).supervisor == old(self).supervisor,
    {
        let p: usize = self.find(id);
        let r: Option<Message> = self.tasks[p].ipc_inbox;
        self.put_inbox(id, None);
        r
    }

    /// A task that waits and can be woken.
    pub open spec fn waiting(t: Task) -> bool {
        t.state == State::Blocked || t.state == State::Sleeping
    }

    /// `self` is `old` after waking task `id`.
    pub open spec fn woken(&self, old: &Scheduler, id: TaskId) -> bool {
        let p = pos(old.tasks@, id, 0);
        let t = old.tasks@[p];
        &&& self.reap@ == old.reap@
        &&& self.next_id == old.next_id
        &&& self.supervisor == old.supervisor
        &&& if p < old.tasks@.len() && Self::waiting(t) {
            &&& self.tasks@ == old.tasks@.update(p, Task { state: State::Ready, ..t })
            &&& self.ready@ == if t.on_cpu is None {
                old.ready@.push(id)
            } else {
                old.ready@
            }
        } else {
            &&& self.tasks@ == old.tasks@
            &&& self.ready@ == old.ready@
        }
    }

    /// Make a waiting task runnable. One that is still on a CPU is queued only
    /// once it has left it.
    pub fn wake(&mut self, id: TaskId)
        requires
            old(self).wf(),
        ensures
            final(self).wf(),
            only_scheduled(old(self).tasks@, final(self).tasks@),
            final(self).woken(old(self), id),
    {
        let p: usize = self.find(id);
        if p < self.tasks.len() {
            let st: State = self.tasks[p].state;
            if st == State::Blocked || st == State::Sleeping {
                let ghost ts = self.tasks@;
                let ghost q = self.ready@;
                self.tasks[p].state = State::Ready;
                if self.tasks[p].on_cpu.is_none() {
                    self.ready.push_back(id);
                    proof {
                        lemma_push_contains(q, id);
                    }
                }
                proof {
                    lemma_changed(ts, self.tasks@, p as int);
                    lemma_queued_after(ts, self.tasks@, q, self.ready@, p as int);
                }
            }
        }
    }

    /// `self` is `old` after task `id` ended with `code`, before anyone was told.
    pub open spec fn killed(&self, old: &Scheduler, id: TaskId, code: i64) -> bool {
        let p = pos(old.tasks@, id, 0);
        &&& self.ready@ == old.ready@
        &&& self.reap@ == old.reap@.push(id)
        &&& self.next_id == old.next_id
        &&& self.supervisor == old.supervisor
        &&& self.tasks@ == if p < old.tasks@.len() {
            old.tasks@.update(
                p,
                Task { state: State::Dead, exit_code: Some(code), ..old.tasks@[p] },
            )
        } else {
            old.tasks@
        }
    }

    /// Mark a task dead and leave it to the supervisor.
    pub fn mark_dead(&mut self, id: TaskId, code: i64)
        requires
            old(self).wf(),
        ensures
            final(self).wf(),
            only_scheduled(old(self).tasks@, final(self).tasks@),
            final(self).killed(old(self), id, code),
    {
        let p: usize = self.find(id);
        if p < self.tasks.len() {
            let ghost ts = self.tasks@;
            self.tasks[p].state = State::Dead;
            self.tasks[p].exit_code = Some(code);
            proof {
                lemma_changed(ts, self.tasks@, p as int);
                lemma_queued_after(ts, self.tasks@, self.ready@, self.ready@, p as int);
                assert(self.tasks@ =~= ts.update(
                    p as int,
                    Task { state: State::Dead, exit_code: Some(code), ..ts[p as int] },
                ));
            }
        }
        self.reap.push_back(id);
    }

    /// `self` is `old` after the current task of a CPU ended: dead first (`a`),
    /// the supervisor told next (`b`), then another task picked.
    pub open spec fn exited(
        &self,
        old: &Scheduler,
        cpu0: Cpu,
        cpu1: Cpu,
        code: i64,
        r: Option<Switch>,
        a: &Scheduler,
        b: &Scheduler,
    ) -> bool {
        &&& a.killed(old, cpu0.current, code)
        &&& if old.supervisor == NO_TASK {
            b == a
        } else {
            b.woken(a, old.supervisor)
        }
        &&& self.scheduled(b, cpu0, cpu1, r)
    }

    /// End the current task of a CPU: mark it dead, wake the supervisor and
    /// switch away.
    pub fn exit_current(&mut self, cpu: &mut Cpu, code: i64) -> (r: Option<Switch>)
        requires
            old(self).wf(),
            old(self).knows(*old(cpu)),
            old(cpu).switches < u64::MAX,
        ensures
            final(self).wf(),
            only_scheduled(old(self).tasks@, final(self).tasks@),
            final(self).knows(*final(cpu)),
            exists|a: Scheduler, b: Scheduler| #[trigger]
                final(self).exited(old(self), *old(cpu), *final(cpu), code, r, &a, &b),
            old(cpu).idle_task != old(cpu).current ==> r is Some && r->0.prev == old(cpu).current
                && r->0.next != old(cpu).current,
    {
        let id: TaskId = cpu.current;
        self.mark_dead(id, code);
        let ghost a = *self;
        proof {
            lemma_pos(old(self).tasks@, id, 0);
            lemma_changed(old(self).tasks@, a.tasks@, pos(old(self).tasks@, id, 0));
        }
        let sup: TaskId = self.supervisor;
        if sup != NO_TASK {
            self.wake(sup);
        }
        let ghost b = *self;
        proof {
            let p = pos(a.tasks@, sup, 0);
            lemma_pos(a.tasks@, sup, 0);
            if sup != NO_TASK && p < a.tasks@.len() && Self::waiting(a.tasks@[p]) {
                lemma_changed(a.tasks@, b.tasks@, p);
            }
            lemma_next_ready(b.tasks@, b.ready@, 0);
            assert(b.task(id)->0.state == State::Dead);
            assert(!is_runnable(b.tasks@, id));
        }
        let r: Option<Switch> = self.schedule(cpu);
        assert(self.exited(old(self), *old(cpu), *cpu, code, r, &a, &b));
        r
    }

    /// A kernel thread returned from its entry function.
    pub fn thread_exit_hook(&mut self, cpu: &mut Cpu) -> (r: Option<Switch>)
        requires
            old(self).wf(),
            old(self).knows(*old(cpu)),
            old(cpu).switches < u64::MAX,
        ensures
            final(self).wf(),
            only_scheduled(old(self).tasks@, final(self).tasks@),
            final(self).knows(*final(cpu)),
            exists|a: Scheduler, b: Scheduler| #[trigger]
                final(self).exited(old(self), *old(cpu), *final(cpu), 0, r, &a, &b),
    {
        self.exit_current(cpu, 0)
    }

    /// The current task of a CPU caused an exception in ring 3: it is killed,
    /// which counts as a crash.
    pub fn on_user_fault(&mut self, cpu: &mut Cpu) -> (r: Option<Switch>)
        requires
            old(self).wf(),
            old(self).knows(*old(cpu)),
            old(cpu).switches < u64::MAX,
        ensures
            final(self).wf(),
            only_scheduled(old(self).tasks@, final(self).tasks@),
            final(self).knows(*final(cpu)),
            exists|a: Scheduler, b: Scheduler| #[trigger]
                final(self).exited(old(self), *old(cpu), *final(cpu), CRASHED, r, &a, &b),
    {
        self.exit_current(cpu, CRASHED)
    }

    /// The same for a page fault.
    pub fn on_user_page_fault(&mut self, cpu: &mut Cpu) -> (r: Option<Switch>)
        requires
            old(self).wf(),
            old(self).knows(*old(cpu)),
            old(cpu).switches < u64::MAX,
        ensures
            final(self).wf(),
            only_scheduled(old(self).tasks@, final(self).tasks@),
            final(self).knows(*final(cpu)),
            exists|a: Scheduler, b: Scheduler| #[trigger]
                final(self).exited(old(self), *old(cpu), *final(cpu), CRASHED, r, &a, &b),
    {
        self.exit_current(cpu, CRASHED)
    }

    /// First position in the reap queue, at or after `i`, of a task that has
    /// left its CPU, or the length.
    pub open spec fn first_dead(ts: Seq<Task>, reap: Seq<TaskId>, i: int) -> int
        decreases reap.len() - i,
    {
        if i >= reap.len() {
            reap.len() as int
        } else {
            let p = pos(ts, reap[i], 0);
            if p < ts.len() && ts[p].on_cpu is None {
                i
            } else {
                Self::first_dead(ts, reap, i + 1)
            }
        }
    }

    /// `self` is `old` after `r`, if any, was taken off the dead.
    pub open spec fn reaped(&self, old: &Scheduler, r: Option<Task>) -> bool {
        let k = Self::first_dead(old.tasks@, old.reap@, 0);
        let p = pos(old.tasks@, old.reap@[k], 0);
        if k < old.reap@.len() {
            &&& 0 <= p < old.tasks@.len()
            &&& r == Some(old.tasks@[p])
            &&& self.tasks@ == old.tasks@.remove(p)
            &&& self.reap@ == old.reap@.remove(k)
        } else {
            &&& r is None
            &&& self.tasks@ == old.tasks@
            &&& self.reap@ == old.reap@
        }
    }

    /// Pop one dead task that has fully left its CPU, for the supervisor to
    /// free.
    pub fn take_dead(&mut self) -> (r: Option<Task>)
        requires
            old(self).wf(),
        ensures
            final(self).wf(),
            final(self).ready@ == old(self).ready@,
            final(self).next_id == old(self).next_id,
            final(self).supervisor == old(self).supervisor,
            final(self).reaped(old(self), r),
    {
        let mut k: usize = 0;
        let ghost ts = self.tasks@;
        while k < self.reap.len()
            invariant
                *self == *old(self),
                self.wf(),
                ts == self.tasks@,
                k <= self.reap@.len(),
                Self::first_dead(ts, self.reap@, 0) == Self::first_dead(ts, self.reap@, k as int),
            decreases self.reap@.len() - k,
        {
            let id: TaskId = self.reap[k];
            let p: usize = self.find(id);
            if p < self.tasks.len() && self.tasks[p].on_cpu.is_none() {
                let _ = self.reap.remove(k);
                let t: Task = self.tasks.remove(p);
                proof {
                    let us = ts.remove(p as int);
                    assert forall|i: int, j: int|
                        #![trigger us[i], us[j]]
                        0 <= i < j < us.len() implies us[i].id < us[j].id by {
                        let x = if i < p {
                            i
                        } else {
                            i + 1
                        };
                        let y = if j < p {
                            j
                        } else {
                            j + 1
                        };
                        assert(us[i] == ts[x] && us[j] == ts[y]);
                    }
                    assert forall|i: int| 0 <= i < us.len() implies (#[trigger] us[i]).id < self.next_id by {
                        let x = if i < p {
                            i
                        } else {
                            i + 1
                        };
                        assert(us[i] == ts[x]);
                    }
                    assert forall|i: int|
                        0 <= i < us.len() && runnable(#[trigger] us[i]) && !us[i].is_idle implies self.ready@.contains(
                    us[i].id) by {
                        let x = if i < p {
                            i
                        } else {
                            i + 1
                        };
                        assert(us[i] == ts[x]);
                    }
                }
                return Some(t);
            }
            k = k + 1;
        }
        None
    }

    /// A sleeping task whose deadline has passed.
    pub open spec fn due(t: Task, now: u64) -> bool {
        t.state == State::Sleeping && t.sleep_until <= now
    }

    /// What a tick at `now` makes of a task.
    pub open spec fn ticked(t: Task, now: u64) -> Task {
        if Self::due(t, now) {
            Task { state: State::Ready, ..t }
        } else {
            t
        }
    }

    /// The tasks among the first `n` that a tick at `now` queues, by ascending
    /// id.
    pub open spec fn due_ids(ts: Seq<Task>, now: u64, n: int) -> Seq<TaskId>
        decreases n,
    {
        if n <= 0 {
            Seq::empty()
        } else {
            let t = ts[n - 1];
            let s = Self::due_ids(ts, now, n - 1);
            if Self::due(t, now) && t.on_cpu is None {
                s.push(t.id)
            } else {
                s
            }
        }
    }

    /// `self` is `old` after a timer tick at `now` on the CPU that runs `cur`;
    /// `r` says whether the CPU should pick another task.
    pub open spec fn after_tick(&self, old: &Scheduler, now: u64, cur: TaskId, r: bool) -> bool {
        let ts = old.tasks@;
        let c = pos(ts, cur, 0);
        let us = ts.map_values(|t: Task| Self::ticked(t, now));
        let left = if ts[c].quantum_left == 0 {
            0
        } else {
            ts[c].quantum_left - 1
        };
        &&& self.ready@ == old.ready@ + Self::due_ids(ts, now, ts.len() as int)
        &&& self.tasks@ == if c < ts.len() {
            us.update(c, Task { quantum_left: left as u32, ..us[c] })
        } else {
            us
        }
        &&& r == ((c == ts.len() || left == 0 || ts[c].is_idle) && self.ready@.len() > 0)
    }

    /// A timer tick at `now` on the CPU that runs `cur`: wake sleepers and charge
    /// the current task. Returns whether the CPU should pick another task.
    pub fn on_tick(&mut self, now: u64, cur: TaskId) -> (r: bool)
        requires
            old(self).wf(),
        ensures
            final(self).wf(),
            only_scheduled(old(self).tasks@, final(self).tasks@),
            final(self).reap@ == old(self).reap@,
            final(self).next_id == old(self).next_id,
            final(self).supervisor == old(self).supervisor,
            final(self).after_tick(old(self), now, cur, r),
    {
        let ghost ts = self.tasks@;
        let ghost q = self.ready@;
        let mut i: usize = 0;
        assert(q + Self::due_ids(ts, now, 0) =~= q);
        while i < self.tasks.len()
            invariant
                self.wf(),
                ts == old(self).tasks@,
                q == old(self).ready@,
                self.reap@ == old(self).reap@,
                self.next_id == old(self).next_id,
                self.supervisor == old(self).supervisor,
                i <= ts.len(),
                self.tasks@.len() == ts.len(),
                forall|k: int| 0 <= k < i ==> #[trigger] self.tasks@[k] == Self::ticked(ts[k], now),
                forall|k: int| i <= k < ts.len() ==> #[trigger] self.tasks@[k] == ts[k],
                self.ready@ == q + Self::due_ids(ts, now, i as int),
            decreases ts.len() - i,
        {
            let ghost us = self.tasks@;
            let ghost q1 = self.ready@;
            let st: State = self.tasks[i].state;
            if st == State::Sleeping && self.tasks[i].sleep_until <= now {
                self.tasks[i].state = State::Ready;
                if self.tasks[i].on_cpu.is_none() {
                    let id: TaskId = self.tasks[i].id;
                    self.ready.push_back(id);
                    proof {
                        lemma_push_contains(q1, id);
                        assert(self.ready@ =~= q + Self::due_ids(ts, now, i + 1));
                    }
                }
                proof {
                    lemma_changed(us, self.tasks@, i as int);
                    lemma_queued_after(us, self.tasks@, q1, self.ready@, i as int);
                }
            }
            i = i + 1;
        }
        let ghost us = self.tasks@;
        assert(us =~= ts.map_values(|t: Task| Self::ticked(t, now)));
        proof {
            assert forall|k: int| 0 <= k < ts.len() implies (#[trigger] us[k]).id == ts[k].id by {}
            lemma_pos_same(ts, us, cur, 0);
            lemma_pos(ts, cur, 0);
        }
        let c: usize = self.find(cur);
        let preempt: bool = if c < self.tasks.len() {
            let left: u32 = self.tasks[c].quantum_left.saturating_sub(1);
            self.tasks[c].quantum_left = left;
            proof {
                lemma_changed(us, self.tasks@, c as int);
                lemma_queued_after(us, self.tasks@, self.ready@, self.ready@, c as int);
            }
            left == 0 || self.tasks[c].is_idle
        } else {
            true
        };
        preempt && self.ready.len() > 0
    }

    pub fn set_supervisor(&mut self, id: TaskId)
        ensures
            final(self).supervisor == id,
            final(self).tasks@ == old(self).tasks@,
            final(self).ready@ == old(self).ready@,
            final(self).reap@ == old(self).reap@,
            final(self).next_id == old(self).next_id,
    {
        self.supervisor = id;
    }

    pub fn task_count(&self) -> (r: usize)
        ensures
            r == self.tasks@.len(),
    {
        self.tasks.len()
    }
}

proof fn lemma_push_contains(q: Seq<TaskId>, id: TaskId)
    ensures
        q.push(id).contains(id),
        forall|x: TaskId| q.contains(x) ==> #[trigger] q.push(id).contains(x),
{
    assert(q.push(id)[q.len() as int] == id);
    assert forall|x: TaskId| q.contains(x) implies #[trigger] q.push(id).contains(x) by {
        let k = choose|k: int| 0 <= k < q.len() && q[k] == x;
        assert(q.push(id)[k] == x);
    }
}

/// Changing what is known of one task, but not its id, leaves every task where
/// it is found.
proof fn lemma_changed(ts: Seq<Task>, us: Seq<Task>, p: int)
    requires
        0 <= p < ts.len(),
        us.len() == ts.len(),
        us[p].id == ts[p].id,
        us =~= ts.update(p, us[p]),
        sorted(ts),
    ensures
        sorted(us),
        forall|id: TaskId| #[trigger] pos(us, id, 0) == pos(ts, id, 0),
{
    assert forall|i: int, j: int|
        #![trigger us[i], us[j]]
        0 <= i < j < us.len() implies us[i].id < us[j].id by {
        assert(ts[i].id < ts[j].id);
    }
    assert forall|id: TaskId| #[trigger] pos(us, id, 0) == pos(ts, id, 0) by {
        lemma_pos_same(ts, us, id, 0);
    }
}

/// Changing what is known of one task, but nothing the scheduler goes by, keeps
/// the scheduler in order.
pub proof fn lemma_task_changed(s0: &Scheduler, s1: &Scheduler, p: int)
    requires
        s0.wf(),
        0 <= p < s0.tasks@.len(),
        s1.tasks@ =~= s0.tasks@.update(p, s1.tasks@[p]),
        s1.tasks@[p].id == s0.tasks@[p].id,
        s1.tasks@[p].state == s0.tasks@[p].state,
        s1.tasks@[p].on_cpu == s0.tasks@[p].on_cpu,
        s1.tasks@[p].is_idle == s0.tasks@[p].is_idle,
        s1.ready@ == s0.ready@,
        s1.next_id == s0.next_id,
    ensures
        s1.wf(),
        forall|id: TaskId| #[trigger] pos(s1.tasks@, id, 0) == pos(s0.tasks@, id, 0),
{
    lemma_changed(s0.tasks@, s1.tasks@, p);
    lemma_queued_after(s0.tasks@, s1.tasks@, s0.ready@, s1.ready@, p);
}

/// Changing what is known of one task, but not its id, leaves every task where
/// it is found.
pub proof fn lemma_found_same(ts: Seq<Task>, us: Seq<Task>, p: int)
    requires
        0 <= p < ts.len(),
        us =~= ts.update(p, us[p]),
        us[p].id == ts[p].id,
    ensures
        forall|id: TaskId| #[trigger] pos(us, id, 0) == pos(ts, id, 0),
{
    assert forall|id: TaskId| #[trigger] pos(us, id, 0) == pos(ts, id, 0) by {
        lemma_pos_same(ts, us, id, 0);
    }
}

proof fn lemma_pos_same(ts: Seq<Task>, us: Seq<Task>, id: TaskId, i: int)
    requires
        us.len() == ts.len(),
        0 <= i <= ts.len(),
        forall|k: int| 0 <= k < ts.len() ==> (#[trigger] us[k]).id == ts[k].id,
    ensures
        pos(us, id, i) == pos(ts, id, i),
    decreases ts.len() - i,
{
    if i < ts.len() {
        assert(us[i].id == ts[i].id);
        lemma_pos_same(ts, us, id, i + 1);
    }
}

/// The queue still holds every runnable task once one task has changed, if it
/// holds that one when it is runnable.
proof fn lemma_queued_after(ts: Seq<Task>, us: Seq<Task>, q: Seq<TaskId>, r: Seq<TaskId>, p: int)
    requires
        queued(ts, q),
        0 <= p < ts.len(),
        us =~= ts.update(p, us[p]),
        forall|x: TaskId| q.contains(x) ==> #[trigger] r.contains(x),
        runnable(us[p]) && !us[p].is_idle ==> r.contains(us[p].id),
    ensures
        queued(us, r),
{
    assert forall|i: int| 0 <= i < us.len() && runnable(#[trigger] us[i]) && !us[i].is_idle implies r.contains(
        us[i].id,
    ) by {
        if i != p {
            assert(us[i] == ts[i]);
            assert(q.contains(ts[i].id));
        }
    }
}

/// The rest of the queue still holds every runnable task but the chosen one.
proof fn lemma_queue_rest(ts: Seq<Task>, us: Seq<Task>, q: Seq<TaskId>, k: int, chosen: TaskId)
    requires
        sorted(ts),
        queued(ts, q),
        us.len() == ts.len(),
        k == next_ready(ts, q, 0),
        k < q.len() ==> q[k] == chosen,
        forall|i: int|
            0 <= i < ts.len() ==> (#[trigger] us[i]).id == ts[i].id && us[i].is_idle == ts[i].is_idle
                && (runnable(us[i]) ==> runnable(ts[i])),
        forall|i: int| 0 <= i < ts.len() && (#[trigger] us[i]).id == chosen ==> !runnable(us[i]),
    ensures
        queued(
            us,
            if k < q.len() {
                q.subrange(k + 1, q.len() as int)
            } else {
                Seq::empty()
            },
        ),
{
    let r = if k < q.len() {
        q.subrange(k + 1, q.len() as int)
    } else {
        Seq::empty()
    };
    lemma_next_ready(ts, q, 0);
    assert forall|i: int| 0 <= i < us.len() && runnable(#[trigger] us[i]) && !us[i].is_idle implies r.contains(
        us[i].id,
    ) by {
        let id = us[i].id;
        assert(runnable(ts[i]));
        assert(q.contains(ts[i].id));
        let m = choose|m: int| 0 <= m < q.len() && q[m] == id;
        lemma_sorted_pos(ts, i);
        assert(is_runnable(ts, q[m]));
        assert(m > k);
        assert(r[m - k - 1] == id);
    }
}

/// In a sorted table a task is found where it is.
pub proof fn lemma_sorted_pos(ts: Seq<Task>, i: int)
    requires
        sorted(ts),
        0 <= i < ts.len(),
    ensures
        pos(ts, ts[i].id, 0) == i,
{
    assert forall|k: int| 0 <= k < i implies (#[trigger] ts[k]).id != ts[i].id by {
        assert(ts[k].id < ts[i].id);
    }
    lemma_pos_is(ts, ts[i].id, i);
}

/// The position of the one task with a given id.
proof fn lemma_pos_is(ts: Seq<Task>, id: TaskId, at: int)
    requires
        0 <= at < ts.len(),
        ts[at].id == id,
        forall|k: int| 0 <= k < at ==> (#[trigger] ts[k]).id != id,
    ensures
        pos(ts, id, 0) == at,
{
    lemma_pos(ts, id, 0);
}

/// Inserting a task with a new id leaves every other one where it is found.
proof fn lemma_inserted(ts: Seq<Task>, t: Task, i: int)
    requires
        0 <= i <= ts.len(),
        forall|k: int| 0 <= k < ts.len() ==> (#[trigger] ts[k]).id != t.id,
    ensures
        ({
            let us = ts.insert(i, t);
            &&& pos(us, t.id, 0) == i
            &&& forall|id: TaskId|
                id != t.id ==> {
                    let p = #[trigger] pos(us, id, 0);
                    let q = pos(ts, id, 0);
                    (p < us.len()) == (q < ts.len()) && (q < ts.len() ==> us[p] == ts[q])
                }
        }),
{
    let us = ts.insert(i, t);
    assert forall|k: int| 0 <= k < i implies (#[trigger] us[k]).id != t.id by {
        assert(us[k] == ts[k]);
    }
    lemma_pos_is(us, t.id, i);
    assert forall|id: TaskId| id != t.id implies {
        let p = #[trigger] pos(us, id, 0);
        let q = pos(ts, id, 0);
        (p < us.len()) == (q < ts.len()) && (q < ts.len() ==> us[p] == ts[q])
    } by {
        lemma_pos(us, id, 0);
        lemma_pos(ts, id, 0);
        let p = pos(us, id, 0);
        let q = pos(ts, id, 0);
        if q < ts.len() {
            let r = if q < i {
                q
            } else {
                q + 1
            };
            assert(us[r] == ts[q]);
            assert forall|k: int| 0 <= k < r implies (#[trigger] us[k]).id != id by {
                if k < i {
                    assert(us[k] == ts[k]);
                } else if k > i {
                    assert(us[k] == ts[k - 1]);
                }
            }
            lemma_pos_is(us, id, r);
        } else if p < us.len() {
            if p < i {
                assert(us[p] == ts[p]);
            } else {
                assert(us[p] == ts[p - 1]);
            }
        }
    }
}

/// A task never runs on two CPUs: when one CPU picks its next task, the current
/// task of every other CPU stays on that CPU and is not the one picked.
pub proof fn lemma_cpus_apart(
    s0: &Scheduler,
    s1: &Scheduler,
    c0: Cpu,
    c1: Cpu,
    r: Option<Switch>,
    other: Cpu,
)
    requires
        s0.wf(),
        s0.knows(c0),
        s0.knows(other),
        other.cpu_id != c0.cpu_id,
        s0.task(c0.idle_task)->0.on_cpu != Some(other.cpu_id),
        s1.scheduled(s0, c0, c1, r),
    ensures
        s1.knows(other),
        c1.current != other.current,
{
    let ts = s0.tasks@;
    lemma_next_ready(ts, s0.ready@, 0);
    let next = s0.choice(c0);
    let c = pos(ts, c0.current, 0);
    let n = pos(ts, next, 0);
    lemma_pos(ts, c0.current, 0);
    lemma_pos(ts, next, 0);
    lemma_pos(ts, other.current, 0);
    lemma_pos(ts, other.idle_task, 0);
    let o = pos(ts, other.current, 0);
    assert(o != c);
    assert(next != other.current);
    assert(n != o);
    if next == c0.current {
        lemma_changed(ts, s1.tasks@, c);
    } else {
        let mid = ts.update(
            c,
            Task {
                state: if ts[c].state == State::Running {
                    State::Ready
                } else {
                    ts[c].state
                },
                ..ts[c]
            },
        );
        lemma_changed(ts, mid, c);
        lemma_changed(mid, s1.tasks@, n);
    }
}

/// A context that is still being saved is never resumed elsewhere: while a task
/// is on a CPU, nobody's next task is that one, unless it is their own current
/// or idle task.
pub proof fn lemma_on_cpu_not_picked(s: &Scheduler, cpu: Cpu, id: TaskId)
    requires
        s.wf(),
        s.knows(cpu),
        s.task(id) is Some,
        s.task(id)->0.on_cpu is Some,
        id != cpu.current,
        id != cpu.idle_task,
    ensures
        s.choice(cpu) != id,
{
    lemma_next_ready(s.tasks@, s.ready@, 0);
}

/// A sleep is never shorter than asked for, and less than a tick longer, but one
/// tick at least. Nothing else changes for the task, and nothing for any other.
pub proof fn lemma_sleep_length(s0: &Scheduler, s1: &Scheduler, id: TaskId, now: u64, ms: u64, i: int)
    requires
        s0.wf(),
        s0.task(id) is Some,
        s1.asleep(s0, id, now, ms),
        now + Scheduler::sleep_ticks(ms) <= u64::MAX,
        0 <= i < s0.tasks@.len(),
    ensures
        s1.tasks@.len() == s0.tasks@.len(),
        s0.tasks@[i].id != id ==> s1.tasks@[i] == s0.tasks@[i],
        s0.tasks@[i].id == id ==> {
            let t = s1.tasks@[i];
            let ticks = t.sleep_until - now;
            &&& t == Task { state: State::Sleeping, sleep_until: t.sleep_until, ..s0.tasks@[i] }
            &&& ticks >= 1
            &&& ticks * 1000 >= ms * TIMER_HZ
            &&& ticks == 1 || (ticks - 1) * 1000 < ms * TIMER_HZ
            &&& ms > 0 ==> t.sleep_until == now + ms
        },
{
    lemma_sorted_pos(s0.tasks@, i);
    lemma_pos(s0.tasks@, id, 0);
}

/// A tick ends every sleep whose time has come and no other, and charges the
/// task that runs, and no other, one tick of its quantum.
pub proof fn lemma_tick(s0: &Scheduler, s1: &Scheduler, now: u64, cur: TaskId, r: bool, i: int)
    requires
        s0.wf(),
        s1.after_tick(s0, now, cur, r),
        0 <= i < s0.tasks@.len(),
    ensures
        s1.tasks@.len() == s0.tasks@.len(),
        ({
            let t = s0.tasks@[i];
            let u = s1.tasks@[i];
            &&& u == Task { state: u.state, quantum_left: u.quantum_left, ..t }
            &&& t.state == State::Sleeping && now >= t.sleep_until ==> u.state == State::Ready
            &&& t.state == State::Sleeping && now < t.sleep_until ==> u.state == State::Sleeping
            &&& t.state != State::Sleeping ==> u.state == t.state
            &&& t.id != cur ==> u.quantum_left == t.quantum_left
            &&& t.id == cur && t.quantum_left > 0 ==> u.quantum_left + 1 == t.quantum_left
            &&& t.id == cur && t.quantum_left == 0 ==> u.quantum_left == 0
            &&& t.id == cur ==> (r <==> s1.ready@.len() > 0 && (u.quantum_left == 0 || t.is_idle))
        }),
{
    lemma_sorted_pos(s0.tasks@, i);
    lemma_pos(s0.tasks@, cur, 0);
    let us = s0.tasks@.map_values(|t: Task| Scheduler::ticked(t, now));
    assert(us[i] == Scheduler::ticked(s0.tasks@[i], now));
}

/// Those a tick wakes line up behind everyone who waited before, by ascending id,
/// each once; one that has not left its CPU yet lines up later.
pub proof fn lemma_woken_line_up(s0: &Scheduler, s1: &Scheduler, now: u64, cur: TaskId, r: bool)
    requires
        s0.wf(),
        s1.after_tick(s0, now, cur, r),
    ensures
        s0.ready@.is_prefix_of(s1.ready@),
        forall|i: int|
            #![trigger s0.tasks@[i]]
            0 <= i < s0.tasks@.len() && s0.tasks@[i].state == State::Sleeping && s0.tasks@[i].sleep_until
                <= now && s0.tasks@[i].on_cpu is None ==> s1.ready@.skip(s0.ready@.len() as int).contains(
                s0.tasks@[i].id,
            ),
        forall|k: int|
            #![trigger s1.ready@[k]]
            s0.ready@.len() <= k < s1.ready@.len() ==> (s0.task(s1.ready@[k]) matches Some(t) && t.state
                == State::Sleeping && t.sleep_until <= now && t.on_cpu is None),
        forall|j: int, k: int|
            #![trigger s1.ready@[j], s1.ready@[k]]
            s0.ready@.len() <= j < k < s1.ready@.len() ==> s1.ready@[j] < s1.ready@[k],
{
    let ts = s0.tasks@;
    let all = Scheduler::due_ids(ts, now, ts.len() as int);
    lemma_due_ids(ts, now, ts.len() as int);
    assert(s1.ready@.skip(s0.ready@.len() as int) =~= all);
    assert forall|k: int| #![trigger s1.ready@[k]] s0.ready@.len() <= k < s1.ready@.len() implies (s0.task(
        s1.ready@[k],
    ) matches Some(t) && t.state == State::Sleeping && t.sleep_until <= now && t.on_cpu is None) by {
        assert(s1.ready@[k] == all[k - s0.ready@.len()]);
    }
    assert forall|j: int, k: int|
        #![trigger s1.ready@[j], s1.ready@[k]]
        s0.ready@.len() <= j < k < s1.ready@.len() implies s1.ready@[j] < s1.ready@[k] by {
        assert(s1.ready@[j] == all[j - s0.ready@.len()]);
        assert(s1.ready@[k] == all[k - s0.ready@.len()]);
    }
}

proof fn lemma_due_ids(ts: Seq<Task>, now: u64, n: int)
    requires
        0 <= n <= ts.len(),
        sorted(ts),
    ensures
        ({
            let s = Scheduler::due_ids(ts, now, n);
            &&& forall|i: int|
                #![trigger ts[i]]
                0 <= i < n && Scheduler::due(ts[i], now) && ts[i].on_cpu is None ==> s.contains(ts[i].id)
            &&& forall|k: int|
                #![trigger s[k]]
                0 <= k < s.len() ==> pos(ts, s[k], 0) < n && Scheduler::due(ts[pos(ts, s[k], 0)], now)
                    && ts[pos(ts, s[k], 0)].on_cpu is None && ts[pos(ts, s[k], 0)].id == s[k]
            &&& forall|j: int, k: int|
                #![trigger s[j], s[k]]
                0 <= j < k < s.len() ==> s[j] < s[k]
        }),
    decreases n,
{
    if n > 0 {
        lemma_due_ids(ts, now, n - 1);
        let s0 = Scheduler::due_ids(ts, now, n - 1);
        let s = Scheduler::due_ids(ts, now, n);
        lemma_push_contains(s0, ts[n - 1].id);
        lemma_sorted_pos(ts, n - 1);
        assert forall|k: int| #![trigger s[k]] 0 <= k < s.len() implies pos(ts, s[k], 0) < n && Scheduler::due(
            ts[pos(ts, s[k], 0)],
            now,
        ) && ts[pos(ts, s[k], 0)].on_cpu is None && ts[pos(ts, s[k], 0)].id == s[k] by {
            if k < s0.len() {
                assert(s[k] == s0[k]);
            } else {
                assert(ts[n - 1].id == s[k]);
            }
        }
        assert forall|j: int, k: int| #![trigger s[j], s[k]] 0 <= j < k < s.len() implies s[j] < s[k] by {
            assert(s[j] == s0[j]);
            lemma_pos(ts, s0[j], 0);
            if k < s0.len() {
                assert(s[k] == s0[k]);
            }
        }
    }
}

/// Round robin: a CPU runs the task that has waited longest, the one at place `k`
/// of the queue if all before it cannot run, and the others wait on in their
/// order. With nobody waiting it goes on with its task, if that can go on, and
/// idles otherwise.
pub proof fn lemma_round_robin(
    s0: &Scheduler,
    s1: &Scheduler,
    c0: Cpu,
    c1: Cpu,
    r: Option<Switch>,
    k: int,
    i: int,
)
    requires
        s0.wf(),
        s0.knows(c0),
        s1.scheduled(s0, c0, c1, r),
        0 <= k <= s0.ready@.len(),
        forall|a: int, j: int|
            #![trigger s0.ready@[a], s0.tasks@[j]]
            0 <= a < k && 0 <= j < s0.tasks@.len() && s0.tasks@[j].id == s0.ready@[a] ==> s0.tasks@[j].state
                != State::Ready || s0.tasks@[j].on_cpu is Some,
    ensures
        k < s0.ready@.len() && 0 <= i < s0.tasks@.len() && s0.tasks@[i].id == s0.ready@[k]
            && s0.tasks@[i].state == State::Ready && s0.tasks@[i].on_cpu is None ==> c1.current
            == s0.ready@[k] && s1.ready@ == s0.ready@.skip(k + 1),
        k == s0.ready@.len() && 0 <= i < s0.tasks@.len() && s0.tasks@[i].id == c0.current ==> {
            &&& s1.ready@.len() == 0
            &&& s0.tasks@[i].state == State::Running ==> c1.current == c0.current
            &&& s0.tasks@[i].state != State::Running ==> c1.current == c0.idle_task
        },
{
    let ts = s0.tasks@;
    let q = s0.ready@;
    let n = next_ready(ts, q, 0);
    lemma_next_ready(ts, q, 0);
    if n < k {
        lemma_pos(ts, q[n], 0);
        assert(is_runnable(ts, q[n]));
        assert(false);
    }
    if 0 <= i < ts.len() {
        lemma_sorted_pos(ts, i);
    }
    if k < q.len() && 0 <= i < ts.len() && ts[i].id == q[k] && runnable(ts[i]) {
        assert(is_runnable(ts, q[k]));
        assert(n == k);
        assert(s1.ready@ =~= q.skip(k + 1));
    }
}

/// What a switch makes of each task: the next one runs, on this CPU and with ten
/// ticks to go; the one that ran waits for its turn unless it waits for something
/// else or is dead; nobody else notices.
pub proof fn lemma_switch(s0: &Scheduler, s1: &Scheduler, c0: Cpu, c1: Cpu, r: Option<Switch>, i: int)
    requires
        s0.wf(),
        s0.knows(c0),
        c0.switches < u64::MAX,
        s1.scheduled(s0, c0, c1, r),
        0 <= i < s0.tasks@.len(),
    ensures
        s1.tasks@.len() == s0.tasks@.len(),
        r is Some <==> c1.current != c0.current,
        r matches Some(w) ==> w.prev == c0.current && w.next == c1.current && c1.prev_pending == c0.current
            && c1.switches == c0.switches + 1,
        r is None ==> c1 == c0,
        c1.cpu_id == c0.cpu_id,
        c1.idle_task == c0.idle_task,
        ({
            let t = s0.tasks@[i];
            let u = s1.tasks@[i];
            if t.id == c1.current {
                &&& t.id != c0.current || t.state == State::Ready || t.state == State::Running ==> u.state
                    == State::Running
                &&& u == Task { state: u.state, on_cpu: Some(c0.cpu_id), quantum_left: 10, ..t }
            } else if t.id == c0.current {
                &&& t.state == State::Running ==> u == Task { state: State::Ready, ..t }
                &&& t.state != State::Running ==> u == t
            } else {
                u == t
            }
        }),
{
    let ts = s0.tasks@;
    lemma_sorted_pos(ts, i);
    lemma_pos(ts, c0.current, 0);
    lemma_pos(ts, c0.idle_task, 0);
    lemma_next_ready(ts, s0.ready@, 0);
    let next = s0.choice(c0);
    lemma_pos(ts, next, 0);
    assert(pos(ts, next, 0) < ts.len());
}

/// A task that was switched away from while it could go on waits at the end of
/// the queue once it has left its CPU, so that everyone who waits comes first. It
/// is on no CPU then, whatever it waits for.
pub proof fn lemma_left(s0: &Scheduler, s1: &Scheduler, prev: TaskId, i: int)
    requires
        s0.wf(),
        prev != NO_TASK,
        s1.left(s0, prev),
        0 <= i < s0.tasks@.len(),
    ensures
        s1.tasks@.len() == s0.tasks@.len(),
        s0.tasks@[i].id != prev ==> s1.tasks@[i] == s0.tasks@[i],
        s0.tasks@[i].id == prev ==> {
            let t = s0.tasks@[i];
            &&& s1.tasks@[i] == Task { on_cpu: None, ..t }
            &&& t.state == State::Ready && !t.is_idle ==> s1.ready@ == s0.ready@.push(prev)
            &&& t.state != State::Ready || t.is_idle ==> s1.ready@ == s0.ready@
        },
{
    lemma_sorted_pos(s0.tasks@, i);
    lemma_pos(s0.tasks@, prev, 0);
}

/// A task that waits for a message or sleeps can run once it is woken; one that
/// runs, can run already or is dead stays as it is, and so does everyone else.
pub proof fn lemma_wake(s0: &Scheduler, s1: &Scheduler, id: TaskId, i: int)
    requires
        s0.wf(),
        s1.woken(s0, id),
        0 <= i < s0.tasks@.len(),
    ensures
        s1.tasks@.len() == s0.tasks@.len(),
        s0.tasks@[i].id != id ==> s1.tasks@[i] == s0.tasks@[i],
        s0.tasks@[i].id == id ==> match s0.tasks@[i].state {
            State::Blocked | State::Sleeping => {
                &&& s1.tasks@[i] == Task { state: State::Ready, ..s0.tasks@[i] }
                &&& s0.tasks@[i].on_cpu is None ==> s1.ready@ == s0.ready@.push(id)
                &&& s0.tasks@[i].on_cpu is Some ==> s1.ready@ == s0.ready@
            },
            _ => s1.tasks@[i] == s0.tasks@[i] && s1.ready@ == s0.ready@,
        },
{
    lemma_sorted_pos(s0.tasks@, i);
    lemma_pos(s0.tasks@, id, 0);
}

/// A task that ends is dead under the code it ended with, left for the supervisor
/// behind those that ended before, and never picked again by its CPU unless it is
/// all the CPU has. A supervisor that waits can run then.
pub proof fn lemma_exit(
    s0: &Scheduler,
    s1: &Scheduler,
    c0: Cpu,
    c1: Cpu,
    code: i64,
    r: Option<Switch>,
    a: &Scheduler,
    b: &Scheduler,
    i: int,
)
    requires
        s0.wf(),
        s0.knows(c0),
        c0.switches < u64::MAX,
        s1.exited(s0, c0, c1, code, r, a, b),
        0 <= i < s0.tasks@.len(),
    ensures
        s1.tasks@.len() == s0.tasks@.len(),
        s1.reap@ == s0.reap@.push(c0.current),
        s0.tasks@[i].id == c0.current ==> s1.tasks@[i].state == State::Dead && s1.tasks@[i].exit_code == Some(
            code,
        ) || c0.idle_task == c0.current,
        c0.idle_task != c0.current ==> c1.current != c0.current,
        s0.tasks@[i].id == s0.supervisor && s0.supervisor != NO_TASK && s0.supervisor != c0.current && (
        s0.tasks@[i].state == State::Blocked || s0.tasks@[i].state == State::Sleeping) ==> {
            ||| s1.tasks@[i].state == State::Ready
            ||| s1.tasks@[i].state == State::Running && c1.current == s0.supervisor
        },
{
    let ts = s0.tasks@;
    let cur = c0.current;
    let c = pos(ts, cur, 0);
    lemma_pos(ts, cur, 0);
    lemma_sorted_pos(ts, i);
    lemma_changed(ts, a.tasks@, c);
    assert(a.tasks@[c].state == State::Dead);
    let sup = s0.supervisor;
    if sup != NO_TASK {
        let p = pos(a.tasks@, sup, 0);
        lemma_pos(a.tasks@, sup, 0);
        if p < a.tasks@.len() && Scheduler::waiting(a.tasks@[p]) {
            lemma_changed(a.tasks@, b.tasks@, p);
        }
    }
    assert(sorted(b.tasks@));
    assert(forall|id: TaskId| #[trigger] pos(b.tasks@, id, 0) == pos(ts, id, 0));
    assert(b.tasks@[c].state == State::Dead && b.tasks@[c].exit_code == Some(code) && b.tasks@[c].id == cur);
    let k = next_ready(b.tasks@, b.ready@, 0);
    lemma_next_ready(b.tasks@, b.ready@, 0);
    lemma_pos(b.tasks@, cur, 0);
    lemma_pos(b.tasks@, c0.idle_task, 0);
    lemma_pos(ts, c0.idle_task, 0);
    let next = b.choice(c0);
    lemma_pos(b.tasks@, next, 0);
    if k < b.ready@.len() {
        assert(is_runnable(b.tasks@, b.ready@[k]));
        assert(next != cur);
    }
    lemma_sorted_pos(b.tasks@, i);
}

/// The supervisor gets the task that died first of those that have left their CPU,
/// and that one alone goes.
pub proof fn lemma_reap_in_order(s0: &Scheduler, s1: &Scheduler, r: Option<Task>, k: int, i: int)
    requires
        s0.wf(),
        s1.reaped(s0, r),
        0 <= k <= s0.reap@.len(),
        forall|a: int, j: int|
            #![trigger s0.reap@[a], s0.tasks@[j]]
            0 <= a < k && 0 <= j < s0.tasks@.len() && s0.tasks@[j].id == s0.reap@[a]
                ==> s0.tasks@[j].on_cpu is Some,
    ensures
        k == s0.reap@.len() ==> r is None && s1.tasks@ == s0.tasks@ && s1.reap@ == s0.reap@,
        k < s0.reap@.len() && 0 <= i < s0.tasks@.len() && s0.tasks@[i].id == s0.reap@[k]
            && s0.tasks@[i].on_cpu is None ==> {
            &&& r == Some(s0.tasks@[i])
            &&& s1.tasks@ == s0.tasks@.remove(i)
            &&& s1.reap@ == s0.reap@.remove(k)
        },
{
    let ts = s0.tasks@;
    let n = Scheduler::first_dead(ts, s0.reap@, 0);
    lemma_first_dead(ts, s0.reap@, 0);
    if n < k {
        lemma_pos(ts, s0.reap@[n], 0);
        assert(false);
    }
    if 0 <= i < ts.len() {
        lemma_sorted_pos(ts, i);
    }
}

/// The dead task that is taken next has left its CPU, and none before it has.
pub proof fn lemma_first_dead(ts: Seq<Task>, reap: Seq<TaskId>, i: int)
    requires
        0 <= i <= reap.len(),
    ensures
        ({
            let n = Scheduler::first_dead(ts, reap, i);
            &&& i <= n <= reap.len()
            &&& n < reap.len() ==> pos(ts, reap[n], 0) < ts.len() && ts[pos(ts, reap[n], 0)].on_cpu is None
            &&& forall|k: int|
                i <= k < n ==> {
                    let p = pos(ts, #[trigger] reap[k], 0);
                    p == ts.len() || p > ts.len() || ts[p].on_cpu is Some
                }
        }),
    decreases reap.len() - i,
{
    if i < reap.len() {
        let p = pos(ts, reap[i], 0);
        if !(p < ts.len() && ts[p].on_cpu is None) {
            lemma_first_dead(ts, reap, i + 1);
        }
    }
}

/// A task is found if and only if the table has one of that id, and what is found
/// is that one.
pub proof fn lemma_found(s: &Scheduler, id: TaskId, i: int)
    requires
        s.wf(),
    ensures
        0 <= i < s.tasks@.len() && s.tasks@[i].id == id ==> s.task(id) == Some(s.tasks@[i]),
        s.task(id) matches Some(t) ==> t.id == id && s.tasks@.contains(t),
{
    lemma_pos(s.tasks@, id, 0);
    if 0 <= i < s.tasks@.len() {
        lemma_sorted_pos(s.tasks@, i);
    }
}

} // verus!
