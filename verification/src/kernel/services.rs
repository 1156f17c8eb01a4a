//! Services: ring-3 programs the kernel supervises. A crashed service is taken
//! down and started again from its image, with the authority it was given the
//! first time.
use vstd::prelude::*;
use vstd::string::*;

use crate::bytes;
use crate::kernel::count;
use crate::kernel::loader;
use crate::kernel::loader::{LoadError, Loaded, LoadedImage, Segment};
use crate::kernel::obj;
use crate::kernel::obj::{CapTable, Capability, Object};
use crate::kernel::reap::Dead;
use crate::kernel::sched;
use crate::kernel::start;
use crate::kernel::start::Region;
use crate::kernel::state;
use crate::kernel::state::Kernel;
use crate::kernel::task;
use crate::kernel::task::{Mapping, State, Task, TaskId, UserEntry};
use crate::kernel::vmm::USER_STACK_TOP;

verus! {

pub const USER_STACK_PAGES: u64 = 16;

pub const MAX_RESTARTS_BEFORE_BACKOFF: u32 = 3;

pub const MAX_SERVICES: usize = 64;

/// Longest time the supervisor waits before a restart, in milliseconds.
pub const MAX_BACKOFF: u64 = 3000;

/// A capability handed to a service at start (and on every restart).
pub type Grant = Capability;

/// What a service is started from.
pub struct ServiceSpec {
    pub name: &'static str,
    pub image: &'static [u8],
    pub grants: Vec<Grant>,
    /// Loaded from disk at runtime rather than embedded in the kernel.
    pub dynamic: bool,
    /// Launch arguments handed to the service, kept so a restart sees the
    /// same ones. Copied into the task's boot info page.
    pub args: Vec<u8>,
}

pub struct ServiceState {
    pub spec: ServiceSpec,
    pub task: Option<TaskId>,
    pub restarts: u32,
    pub last_exit: Option<i64>,
}

/// A table that holds exactly these capabilities, in this order.
pub open spec fn table_of(list: Seq<Capability>) -> Seq<Option<Capability>> {
    Seq::new(list.len(), |i: int| Some(list[i]))
}

/// The capabilities of a new task: the grants in order, as far as the table has
/// slots.
pub open spec fn start_table(grants: Seq<Capability>) -> Seq<Option<Capability>> {
    table_of(
        grants.take(
            if grants.len() < obj::MAX_SLOTS {
                grants.len() as int
            } else {
                obj::MAX_SLOTS as int
            },
        ),
    )
}

proof fn lemma_table_push(list: Seq<Capability>, c: Capability)
    ensures
        table_of(list.push(c)) =~= table_of(list).push(Some(c)),
{
}

proof fn lemma_table_refs(list: Seq<Capability>, id: u32)
    ensures
        count::sum(table_of(list), state::slot_weight(id)) == count::sum(list, state::cap_weight(id)),
    decreases list.len(),
{
    if list.len() > 0 {
        lemma_table_refs(list.drop_last(), id);
        lemma_table_push(list.drop_last(), list.last());
        assert(list.drop_last().push(list.last()) =~= list);
        count::lemma_sum_push(table_of(list.drop_last()), Some(list.last()), state::slot_weight(id));
    }
}

/// A full table has no free slot before its end.
proof fn lemma_table_full(list: Seq<Capability>, i: int)
    requires
        0 <= i <= list.len(),
    ensures
        obj::free_slot(table_of(list), i) == list.len(),
    decreases list.len() - i,
{
    if i < list.len() {
        lemma_table_full(list, i + 1);
    }
}

/// A task on its way: what has to be in its address space before it may run.
pub struct Spawn {
    pub id: TaskId,
    /// The segments of the image, in the order in which they are mapped and
    /// filled.
    pub segments: Vec<Segment>,
    /// Where the task starts, or why the image cannot be loaded.
    pub image: Result<LoadedImage, LoadError>,
    /// Stack, heap and boot info page, fresh and zeroed.
    pub regions: [Region; 3],
    /// What the boot info page starts with.
    pub page: Vec<u8>,
}

impl Spawn {
    pub open spec fn is_for(&self, spec: ServiceSpec, id: TaskId, heap_base: u64) -> bool {
        &&& self.id == id
        &&& (self.segments@, self.image) == loader::image_of(spec.image@)
        &&& self.regions@ == start::regions_of(heap_base)
        &&& start::is_boot_page(self.page@, id, heap_base, spec.args@)
    }
}

/// What a service looks like before its first start.
pub open spec fn fresh(s: ServiceState, spec: ServiceSpec) -> bool {
    s.spec == spec && s.task is None && s.restarts == 0 && s.last_exit is None
}

impl Kernel {
    /// One more copy of each capability in a list can be counted.
    pub open spec fn can_copy(&self, list: Seq<Capability>) -> bool {
        forall|id: u32| #[trigger]
            self.mem.refs(id) + count::sum(list, state::cap_weight(id)) <= u64::MAX
    }

    /// Every memory object that a list of capabilities is for exists.
    pub open spec fn all_live(&self, list: Seq<Capability>) -> bool {
        forall|i: int|
            0 <= i < list.len() ==> ((#[trigger] list[i]).object matches Object::Memory(id) ==> self.mem.live(
                id as int,
            ))
    }

    /// Of the memory objects, only numbers of references differ from `old`.
    pub open spec fn recounted(&self, old: &Kernel) -> bool {
        &&& self.bm == old.bm
        &&& self.mem.objects@.len() == old.mem.objects@.len()
        &&& forall|i: int| #[trigger] self.mem.live(i) == old.mem.live(i)
        &&& forall|i: int| #[trigger]
            self.mem.live(i) ==> self.mem.objects@[i]->0.object == old.mem.objects@[i]->0.object
    }

    /// Count one more copy of each capability; the copies are then on their way.
    fn copy_all(&mut self, bits: &[u64], list: &Vec<Capability>, n: usize)
        requires
            old(self).wf(bits@),
            n <= list@.len(),
            old(self).all_live(list@),
            old(self).can_copy(list@.take(n as int)),
        ensures
            final(self).wf_with(bits@, table_of(list@.take(n as int))),
            final(self).sched == old(self).sched,
            final(self).eps == old(self).eps,
            final(self).services == old(self).services,
            final(self).recounted(old(self)),
            forall|id: u32| #[trigger]
                final(self).mem.refs(id) == old(self).mem.refs(id) + count::sum(
                    list@.take(n as int),
                    state::cap_weight(id),
                ),
    {
        let mut i: usize = 0;
        assert(table_of(list@.take(0)) =~= Seq::empty());
        proof {
            assert forall|id: u32| #[trigger] self.mem.refs(id) == old(self).mem.refs(id) + count::sum(
                list@.take(0),
                state::cap_weight(id),
            ) by {}
        }
        while i < n
            invariant
                i <= n,
                n <= list@.len(),
                self.wf_with(bits@, table_of(list@.take(i as int))),
                self.sched == old(self).sched,
                self.eps == old(self).eps,
                self.services == old(self).services,
                self.recounted(old(self)),
                self.all_live(list@),
                old(self).can_copy(list@.take(n as int)),
                forall|id: u32| #[trigger]
                    self.mem.refs(id) == old(self).mem.refs(id) + count::sum(
                        list@.take(i as int),
                        state::cap_weight(id),
                    ),
            decreases n - i,
        {
            let c: Capability = list[i];
            let ghost k0 = *self;
            let ghost l0 = list@.take(i as int);
            proof {
                if let Object::Memory(id) = c.object {
                    lemma_weight_prefix(list@, i + 1, n as int, id);
                    assert(list@.take(i + 1) =~= l0.push(c));
                    count::lemma_sum_push(l0, c, state::cap_weight(id));
                    assert(self.mem.refs(id) < u64::MAX);
                }
            }
            self.copy_loose(c, Ghost(bits@), Ghost(table_of(l0)));
            proof {
                assert(list@.take(i + 1) =~= l0.push(c));
                lemma_table_push(l0, c);
                assert forall|id: u32| #[trigger] self.mem.refs(id) == old(self).mem.refs(id) + count::sum(
                    list@.take(i + 1),
                    state::cap_weight(id),
                ) by {
                    count::lemma_sum_push(l0, c, state::cap_weight(id));
                    assert(k0.mem.refs(id) == old(self).mem.refs(id) + count::sum(
                        l0,
                        state::cap_weight(id),
                    ));
                }
                assert forall|j: int| #[trigger] self.mem.live(j) == old(self).mem.live(j) by {
                    assert(k0.mem.live(j) == old(self).mem.live(j));
                }
                assert forall|j: int| #[trigger] self.mem.live(j) implies self.mem.objects@[j]->0.object
                    == old(self).mem.objects@[j]->0.object by {
                    assert(k0.mem.live(j));
                }
            }
            i = i + 1;
        }
    }

    /// Add a service to the table; `None` if the table is full. The table keeps
    /// the grants for the service's restarts.
    pub fn register(&mut self, bits: &[u64], spec: ServiceSpec) -> (r: Option<usize>)
        requires
            old(self).wf(bits@),
            old(self).all_live(spec.grants@),
            old(self).can_copy(spec.grants@),
        ensures
            final(self).wf(bits@),
            final(self).sched == old(self).sched,
            final(self).eps == old(self).eps,
            old(self).services@.len() >= MAX_SERVICES ==> r is None && *final(self) == *old(self),
            old(self).services@.len() < MAX_SERVICES ==> {
                &&& r == Some(old(self).services@.len() as usize)
                &&& final(self).services@.len() == old(self).services@.len() + 1
                &&& final(self).services@.drop_last() == old(self).services@
                &&& fresh(final(self).services@.last(), spec)
                &&& final(self).recounted(old(self))
                &&& forall|id: u32| #[trigger]
                    final(self).mem.refs(id) == old(self).mem.refs(id) + count::sum(
                        spec.grants@,
                        state::cap_weight(id),
                    )
            },
    {
        if self.services.len() >= MAX_SERVICES {
            return None;
        }
        let n: usize = spec.grants.len();
        assert(spec.grants@.take(n as int) =~= spec.grants@);
        self.copy_all(bits, &spec.grants, n);
        let ghost k1 = *self;
        let idx: usize = self.services.len();
        self.services.push(ServiceState { spec, task: None, restarts: 0, last_exit: None });
        proof {
            assert(self.services@.drop_last() =~= old(self).services@);
            assert forall|id: u32| #[trigger] self.mem.refs(id) == self.holders(id) + count::sum(
                Seq::<Option<Capability>>::empty(),
                state::slot_weight(id),
            ) by {
                assert(k1.mem.refs(id) == k1.holders(id) + count::sum(
                    table_of(spec.grants@),
                    state::slot_weight(id),
                ));
                lemma_table_refs(spec.grants@, id);
                count::lemma_sum_push(
                    old(self).services@,
                    self.services@.last(),
                    state::service_weight(id),
                );
            }
        }
        Some(idx)
    }

    /// Add a service loaded at runtime. Its name must be printable ASCII without
    /// blanks.
    pub fn spawn_from_image(
        &mut self,
        bits: &[u64],
        name: &'static str,
        image: &'static [u8],
        grants: Vec<Grant>,
        args: Vec<u8>,
    ) -> (r: Option<usize>)
        requires
            old(self).wf(bits@),
            old(self).all_live(grants@),
            old(self).can_copy(grants@),
        ensures
            final(self).wf(bits@),
            final(self).sched == old(self).sched,
            final(self).eps == old(self).eps,
            !good_name(name.spec_bytes()) || old(self).services@.len() >= MAX_SERVICES ==> r is None
                && *final(self) == *old(self),
            good_name(name.spec_bytes()) && old(self).services@.len() < MAX_SERVICES ==> {
                &&& r == Some(old(self).services@.len() as usize)
                &&& final(self).services@.len() == old(self).services@.len() + 1
                &&& final(self).services@.drop_last() == old(self).services@
                &&& fresh(
                    final(self).services@.last(),
                    (ServiceSpec { name, image, grants, dynamic: true, args }),
                )
                &&& final(self).recounted(old(self))
                &&& forall|id: u32| #[trigger]
                    final(self).mem.refs(id) == old(self).mem.refs(id) + count::sum(
                        grants@,
                        state::cap_weight(id),
                    )
            },
    {
        if !name_ok(name.as_bytes()) {
            return None;
        }
        self.register(bits, ServiceSpec { name, image, grants, dynamic: true, args })
    }

    /// Begin the next instance of service `idx`: reserve its task id and say
    /// what goes into its address space. `None` if there is no such service.
    /// The id comes first: the boot info page carries it, and the page has to be
    /// in place before any CPU can enter the task.
    pub fn spawn(&mut self, bits: &[u64], idx: usize, heap_base: u64) -> (r: Option<Spawn>)
        requires
            old(self).wf(bits@),
            old(self).has_ids(),
        ensures
            final(self).wf(bits@),
            final(self).eps == old(self).eps,
            final(self).mem == old(self).mem,
            final(self).bm == old(self).bm,
            final(self).services == old(self).services,
            final(self).sched.tasks@ == old(self).sched.tasks@,
            final(self).sched.ready@ == old(self).sched.ready@,
            final(self).sched.reap@ == old(self).sched.reap@,
            final(self).sched.supervisor == old(self).sched.supervisor,
            idx >= old(self).services@.len() ==> r is None && final(self).sched.next_id == old(
                self,
            ).sched.next_id,
            idx < old(self).services@.len() ==> {
                &&& r matches Some(w) && w.is_for(
                    old(self).services@[idx as int].spec,
                    old(self).sched.next_id,
                    heap_base,
                )
                &&& final(self).sched.next_id == old(self).sched.next_id + 1
                &&& final(self).sched.task(old(self).sched.next_id) is None
            },
    {
        if idx >= self.services.len() {
            return None;
        }
        let id: TaskId = self.sched.reserve_task_id();
        proof {
            assert forall|k: u32| #[trigger] self.mem.refs(k) == self.holders(k) + count::sum(
                Seq::<Option<Capability>>::empty(),
                state::slot_weight(k),
            ) by {
                assert(old(self).mem.refs(k) == old(self).holders(k) + count::sum(
                    Seq::<Option<Capability>>::empty(),
                    state::slot_weight(k),
                ));
            }
        }
        let spec: &ServiceSpec = &self.services[idx].spec;
        let loaded: Loaded = loader::load(spec.image);
        Some(
            Spawn {
                id,
                segments: loaded.segments,
                image: loaded.result,
                regions: start::regions(heap_base),
                page: start::boot_page(id, heap_base, spec.args.as_slice()),
            },
        )
    }

    /// `self` is `old` after task `id` was made for service `idx` and published.
    pub open spec fn started(&self, old: &Kernel, idx: int, id: TaskId, rip: u64) -> bool {
        let spec = old.services@[idx].spec;
        &&& self.eps == old.eps
        &&& self.sched.task(id) matches Some(t) && {
            &&& t.id == id
            &&& t.name == spec.name
            &&& t.state == State::Ready
            &&& t.user == Some(UserEntry { rip, rsp: (USER_STACK_TOP - 16) as u64 })
            &&& t.caps@ == start_table(spec.grants@)
            &&& t.maps@ == Seq::<Mapping>::empty()
            &&& t.ipc_inbox is None
            &&& t.exit_code is None
            &&& t.service == Some(idx as usize)
            &&& t.on_cpu is None
            &&& !t.is_idle
        }
        &&& forall|k: TaskId| k != id ==> #[trigger] self.sched.task(k) == old.sched.task(k)
        &&& self.sched.ready@ == old.sched.ready@.push(id)
        &&& self.sched.reap@ == old.sched.reap@
        &&& self.sched.next_id == old.sched.next_id
        &&& self.sched.supervisor == old.sched.supervisor
        &&& self.services@ == old.services@.update(
            idx,
            ServiceState { task: Some(id), ..old.services@[idx] },
        )
        &&& self.recounted(old)
        &&& forall|m: u32| #[trigger]
            self.mem.refs(m) == old.mem.refs(m) + count::sum(
                start_table(spec.grants@),
                state::slot_weight(m),
            )
    }

    /// The address space of task `id` is complete: give the task the service's
    /// capabilities, slots numbered in the order of the grants, and make it
    /// runnable.
    pub fn spawn_finish(&mut self, bits: &[u64], idx: usize, id: TaskId, rip: u64)
        requires
            old(self).wf(bits@),
            idx < old(self).services@.len(),
            id < old(self).sched.next_id,
            old(self).sched.task(id) is None,
            old(self).can_copy(old(self).services@[idx as int].spec.grants@),
        ensures
            final(self).wf(bits@),
            final(self).started(old(self), idx as int, id, rip),
    {
        let mut grants: Vec<Capability> = Vec::new();
        let n: usize = self.services[idx].spec.grants.len();
        let ghost gs = self.services@[idx as int].spec.grants@;
        let mut i: usize = 0;
        while i < n && i < obj::MAX_SLOTS
            invariant
                i <= n,
                i <= obj::MAX_SLOTS,
                n == gs.len(),
                idx < self.services@.len(),
                gs == self.services@[idx as int].spec.grants@,
                grants@ == gs.take(i as int),
            decreases n - i,
        {
            grants.push(self.services[idx].spec.grants[i]);
            i = i + 1;
            assert(grants@ =~= gs.take(i as int));
        }
        proof {
            assert forall|k: int|
                0 <= k < grants@.len() implies ((#[trigger] grants@[k]).object matches Object::Memory(m)
                ==> self.mem.live(m as int)) by {
                assert(grants@[k] == gs[k]);
                self.lemma_service_live(bits@, idx as int, k);
            }
        }
        proof {
            assert(grants@.take(i as int) =~= grants@);
            assert forall|m: u32| #[trigger] self.mem.refs(m) + count::sum(grants@, state::cap_weight(m))
                <= u64::MAX by {
                lemma_weight_prefix(gs, i as int, n as int, m);
                assert(gs.take(n as int) =~= gs);
            }
        }
        self.copy_all(bits, &grants, i);
        assert(table_of(grants@) =~= start_table(gs));
        let ghost k1 = *self;
        let mut t: Task = Task::new_kernel(id, self.services[idx].spec.name);
        t.user = Some(UserEntry { rip, rsp: USER_STACK_TOP - 16 });
        t.service = Some(idx);
        let mut j: usize = 0;
        assert(t.caps@ =~= table_of(grants@.take(0)));
        while j < i
            invariant
                j <= i,
                i == grants@.len(),
                i <= obj::MAX_SLOTS,
                t.caps.wf(),
                t.caps@ == table_of(grants@.take(j as int)),
                t == made(id, self.services@[idx as int].spec.name, idx, rip, t.caps, t.maps),
                t.maps@ == Seq::<Mapping>::empty(),
                idx < self.services@.len(),
            decreases i - j,
        {
            let c: Capability = grants[j];
            proof {
                lemma_table_full(grants@.take(j as int), 0);
                lemma_table_push(grants@.take(j as int), c);
                assert(grants@.take(j + 1) =~= grants@.take(j as int).push(c));
            }
            let _ = t.caps.insert(c);
            j = j + 1;
        }
        assert(grants@.take(i as int) =~= grants@);
        let ghost t1 = t;
        self.sched.publish_task(t, id);
        self.services[idx].task = Some(id);
        proof {
            let ts = k1.sched.tasks@;
            let p = sched::place_of(ts, id, 0);
            sched::lemma_place_of(ts, id, 0);
            let t2 = Task { id, state: State::Ready, ..t1 };
            assert forall|x: int| 0 <= x < self.sched.tasks@.len() implies (
            #[trigger] self.sched.tasks@[x]) == if x < p {
                ts[x]
            } else if x == p {
                t2
            } else {
                ts[x - 1]
            } by {}
            assert(self.tables_ok());
            assert(self.inboxes_ok());
            assert forall|m: u32| #[trigger] self.mem.refs(m) == self.holders(m) + count::sum(
                Seq::<Option<Capability>>::empty(),
                state::slot_weight(m),
            ) by {
                assert(k1.mem.refs(m) == k1.holders(m) + count::sum(
                    table_of(grants@),
                    state::slot_weight(m),
                ));
                count::lemma_sum_insert(ts, p, t2, state::task_weight(m));
                count::lemma_sum_same(k1.services@, self.services@, state::service_weight(m));
                count::lemma_sum_empty(state::map_weight(m));
            }
            assert forall|m: u32| #[trigger] self.mem.refs(m) == old(self).mem.refs(m) + count::sum(
                start_table(gs),
                state::slot_weight(m),
            ) by {
                lemma_table_refs(grants@, m);
                assert(k1.mem.refs(m) == old(self).mem.refs(m) + count::sum(
                    grants@,
                    state::cap_weight(m),
                ));
            }
            assert(self.services@ =~= old(self).services@.update(
                idx as int,
                ServiceState { task: Some(id), ..old(self).services@[idx as int] },
            ));
        }
    }

    /// A memory object that a service was granted exists.
    proof fn lemma_service_live(&self, bits: Seq<u64>, idx: int, k: int)
        requires
            self.wf(bits),
            0 <= idx < self.services@.len(),
            0 <= k < self.services@[idx].spec.grants@.len(),
        ensures
            self.services@[idx].spec.grants@[k].object matches Object::Memory(id) ==> self.mem.live(id as int),
    {
        let gs = self.services@[idx].spec.grants@;
        if let Object::Memory(id) = gs[k].object {
            count::lemma_sum_part(gs, k, state::cap_weight(id));
            assert forall|s: ServiceState| #[trigger] state::service_weight(id)(s) >= 0 by {
                count::lemma_sum_nonneg(s.spec.grants@, state::cap_weight(id));
            }
            count::lemma_sum_part(self.services@, idx, state::service_weight(id));
            self.lemma_parts_nonneg(id);
            assert(self.mem.refs(id) >= 1);
        }
    }
}

/// A task as it is made for a service.
spec fn made(
    id: TaskId,
    name: &'static str,
    idx: usize,
    rip: u64,
    caps: CapTable,
    maps: Vec<Mapping>,
) -> Task {
    Task {
        id,
        name,
        state: State::Ready,
        user: Some(UserEntry { rip, rsp: (USER_STACK_TOP - 16) as u64 }),
        caps,
        maps,
        sleep_until: 0,
        exit_code: None,
        quantum_left: 0,
        ipc_inbox: None,
        service: Some(idx),
        on_cpu: None,
        is_idle: false,
    }
}

/// The first capabilities of a list make no more references than more of them
/// do.
proof fn lemma_weight_prefix(list: Seq<Capability>, i: int, n: int, id: u32)
    requires
        0 <= i <= n <= list.len(),
    ensures
        count::sum(list.take(i), state::cap_weight(id)) <= count::sum(list.take(n), state::cap_weight(id)),
    decreases n - i,
{
    if i < n {
        lemma_weight_prefix(list, i, n - 1, id);
        assert(list.take(n) =~= list.take(n - 1).push(list[n - 1]));
        count::lemma_sum_push(list.take(n - 1), list[n - 1], state::cap_weight(id));
    }
}

/// A name a service loaded at runtime may have: not empty, and every byte a
/// printable ASCII character other than the blank.
pub open spec fn good_name(name: Seq<u8>) -> bool {
    name.len() > 0 && forall|i: int| 0 <= i < name.len() ==> 0x21 <= #[trigger] name[i] <= 0x7e
}

fn name_ok(name: &[u8]) -> (r: bool)
    ensures
        r == good_name(name@),
{
    if name.len() == 0 {
        return false;
    }
    let mut i: usize = 0;
    while i < name.len()
        invariant
            i <= name@.len(),
            forall|k: int| 0 <= k < i ==> 0x21 <= #[trigger] name@[k] <= 0x7e,
        decreases name@.len() - i,
    {
        if name[i] < 0x21 || name[i] > 0x7e {
            return false;
        }
        i = i + 1;
    }
    true
}

/// How long the supervisor waits before restart number `n`: not at all for the
/// first three, then 200 ms more each time, up to three seconds.
pub open spec fn backoff_ms(n: int) -> int {
    if n <= MAX_RESTARTS_BEFORE_BACKOFF {
        0
    } else if 200 * (n - MAX_RESTARTS_BEFORE_BACKOFF) < MAX_BACKOFF {
        200 * (n - MAX_RESTARTS_BEFORE_BACKOFF)
    } else {
        MAX_BACKOFF as int
    }
}

pub fn backoff(restarts: u32) -> (r: u64)
    ensures
        r == backoff_ms(restarts as int),
{
    if restarts > MAX_RESTARTS_BEFORE_BACKOFF {
        let d: u64 = 200u64 * (restarts - MAX_RESTARTS_BEFORE_BACKOFF) as u64;
        if d < MAX_BACKOFF {
            d
        } else {
            MAX_BACKOFF
        }
    } else {
        0
    }
}

/// The wait before a restart never shrinks from one restart to the next, and is
/// never longer than three seconds.
pub proof fn lemma_backoff(m: int, n: int)
    requires
        0 <= m <= n,
    ensures
        backoff_ms(m) <= backoff_ms(n) <= MAX_BACKOFF,
        n <= MAX_RESTARTS_BEFORE_BACKOFF ==> backoff_ms(n) == 0,
{
}

/// What the supervisor does about a dead task.
#[derive(Clone, Copy, Debug, PartialEq, Eq, Structural)]
#[allow(inconsistent_fields)]
pub enum Verdict {
    /// It belonged to no service.
    Thread,
    /// The service finished cleanly and is not restarted.
    Finished { service: usize },
    /// Start the service again after a wait.
    Restart { service: usize, restarts: u32, delay_ms: u64 },
}

impl Kernel {
    /// What follows from a task's death, from `old` to `self`.
    pub open spec fn judged(&self, old: &Kernel, d: Dead, v: Verdict) -> bool {
        &&& self.sched == old.sched
        &&& self.eps == old.eps
        &&& self.mem == old.mem
        &&& self.bm == old.bm
        &&& match d.service {
            None => v is Thread && self.services@ == old.services@,
            Some(i) => {
                let s0 = old.services@[i as int];
                if d.code == 0 {
                    &&& v == Verdict::Finished { service: i }
                    &&& self.services@ == old.services@.update(
                        i as int,
                        ServiceState { task: None, last_exit: Some(0), ..s0 },
                    )
                } else {
                    let n = (s0.restarts + 1) as u32;
                    &&& v == Verdict::Restart {
                        service: i,
                        restarts: n,
                        delay_ms: backoff_ms(n as int) as u64,
                    }
                    &&& self.services@ == old.services@.update(
                        i as int,
                        ServiceState { task: None, last_exit: Some(d.code), restarts: n, ..s0 },
                    )
                }
            },
        }
    }

    /// Decide about a dead task. A clean `exit(0)` means the service is done;
    /// one that crashed or failed is started again.
    pub fn supervise(&mut self, bits: &[u64], d: &Dead) -> (r: Verdict)
        requires
            old(self).wf(bits@),
            d.service matches Some(i) ==> i < old(self).services@.len() && old(
                self,
            ).services@[i as int].restarts < u32::MAX,
        ensures
            final(self).wf(bits@),
            final(self).judged(old(self), *d, r),
            d.service matches Some(i) ==> {
                &&& r == (Verdict::Finished { service: i }) <==> d.code == 0
                &&& d.code != 0 ==> r is Restart && r->Restart_service == i
                &&& d.code != 0 ==> final(self).services@[i as int].restarts == old(self).services@[i as int].restarts
                    + 1
            },
    {
        let idx: usize = match d.service {
            None => {
                return Verdict::Thread;
            },
            Some(i) => i,
        };
        self.services[idx].task = None;
        self.services[idx].last_exit = Some(d.code);
        let mut r: Verdict = Verdict::Finished { service: idx };
        if d.code != 0 {
            let n: u32 = self.services[idx].restarts + 1;
            self.services[idx].restarts = n;
            r = Verdict::Restart { service: idx, restarts: n, delay_ms: backoff(n) };
        }
        proof {
            assert forall|m: u32| #[trigger] self.mem.refs(m) == self.holders(m) + count::sum(
                Seq::<Option<Capability>>::empty(),
                state::slot_weight(m),
            ) by {
                count::lemma_sum_same(old(self).services@, self.services@, state::service_weight(m));
                assert(old(self).mem.refs(m) == old(self).holders(m) + count::sum(
                    Seq::<Option<Capability>>::empty(),
                    state::slot_weight(m),
                ));
            }
        }
        assert(self.services@ =~= old(self).services@.update(idx as int, self.services@[idx as int]));
        r
    }

    /// The first service from `i` on that has a name, if there is one.
    pub open spec fn service_named(services: Seq<ServiceState>, name: Seq<u8>, i: int) -> Option<ServiceState>
        decreases services.len() - i,
    {
        if i >= services.len() {
            None
        } else if services[i].spec.name.spec_bytes() == name {
            Some(services[i])
        } else {
            Self::service_named(services, name, i + 1)
        }
    }

    /// How often the service of a name was restarted; 0 if there is none.
    pub fn restarts_of(&self, name: &str) -> (r: u32)
        ensures
            r == match Self::service_named(self.services@, name.spec_bytes(), 0) {
                Some(s) => s.restarts,
                None => 0,
            },
    {
        let mut i: usize = 0;
        while i < self.services.len()
            invariant
                i <= self.services@.len(),
                Self::service_named(self.services@, name.spec_bytes(), 0) == Self::service_named(
                    self.services@,
                    name.spec_bytes(),
                    i as int,
                ),
            decreases self.services@.len() - i,
        {
            if bytes::equal(self.services[i].spec.name.as_bytes(), name.as_bytes()) {
                return self.services[i].restarts;
            }
            i = i + 1;
        }
        0
    }
}

/// How long the supervisor sleeps when nobody has died, in milliseconds.
pub const POLL_MS: u64 = 50;

/// What the supervisor does next.
#[derive(Clone, Copy, Debug, PartialEq, Eq, Structural)]
pub enum Duty {
    /// Look for a dead task and judge it.
    Reap,
    /// Sleep this many milliseconds.
    Sleep(u64),
    /// Start this service.
    Start(usize),
}

/// What came of it.
#[derive(Clone, Copy, Debug, PartialEq, Eq, Structural)]
pub enum Outcome {
    /// What follows from a task's death, or nothing if none was dead.
    Reaped(Option<Verdict>),
    Slept,
    Started,
}

/// The supervisor: takes dead tasks apart one after the other and starts again
/// what crashed or failed, after its wait.
#[derive(Clone, Copy, Debug, PartialEq, Eq, Structural)]
pub struct Supervisor {
    /// The service whose wait has begun.
    pub waiting: Option<usize>,
}

/// The supervisor after an outcome, and what it does then.
pub open spec fn next_duty(s: Supervisor, o: Outcome) -> (Supervisor, Duty) {
    let idle = Supervisor { waiting: None };
    match o {
        Outcome::Started => (idle, Duty::Reap),
        Outcome::Slept => match s.waiting {
            Some(service) => (idle, Duty::Start(service)),
            None => (idle, Duty::Reap),
        },
        Outcome::Reaped(None) => (idle, Duty::Sleep(POLL_MS)),
        Outcome::Reaped(Some(Verdict::Restart { service, delay_ms, .. })) => if delay_ms > 0 {
            (Supervisor { waiting: Some(service) }, Duty::Sleep(delay_ms))
        } else {
            (idle, Duty::Start(service))
        },
        Outcome::Reaped(Some(_)) => (idle, Duty::Reap),
    }
}

impl Supervisor {
    /// The supervisor begins by looking for dead tasks.
    pub fn new() -> (r: (Self, Duty))
        ensures
            r == (Supervisor { waiting: None }, Duty::Reap),
    {
        (Supervisor { waiting: None }, Duty::Reap)
    }

    pub fn step(&mut self, o: Outcome) -> (r: Duty)
        ensures
            (*final(self), r) == next_duty(*old(self), o),
    {
        let waited: Option<usize> = self.waiting;
        self.waiting = None;
        match o {
            Outcome::Started => Duty::Reap,
            Outcome::Slept => match waited {
                Some(service) => Duty::Start(service),
                None => Duty::Reap,
            },
            Outcome::Reaped(None) => Duty::Sleep(POLL_MS),
            Outcome::Reaped(Some(v)) => match v {
                Verdict::Restart { service, delay_ms, .. } => {
                    if delay_ms > 0 {
                        self.waiting = Some(service);
                        Duty::Sleep(delay_ms)
                    } else {
                        Duty::Start(service)
                    }
                },
                _ => Duty::Reap,
            },
        }
    }
}

/// A service that crashed or failed is started again before anything else is
/// looked at, after its wait and no other; what finished is not.
pub proof fn lemma_restart_follows(s: Supervisor, v: Verdict)
    ensures
        match v {
            Verdict::Restart { service, delay_ms, .. } => {
                let (s1, d1) = next_duty(s, Outcome::Reaped(Some(v)));
                if delay_ms == 0 {
                    d1 == Duty::Start(service)
                } else {
                    d1 == Duty::Sleep(delay_ms) && next_duty(s1, Outcome::Slept).1 == Duty::Start(service)
                }
            },
            _ => next_duty(s, Outcome::Reaped(Some(v))).1 == Duty::Reap,
        },
{
}

/// A service that crashed is restarted with exactly the authority it was given
/// the first time: the new task's table is the one the old task started with.
pub proof fn lemma_same_authority(
    k0: &Kernel,
    k1: &Kernel,
    k2: &Kernel,
    k3: &Kernel,
    k4: &Kernel,
    idx: int,
    first: TaskId,
    second: TaskId,
    rip: u64,
    d: Dead,
    v: Verdict,
)
    requires
        0 <= idx < k0.services@.len(),
        k1.started(k0, idx, first, rip),
        k2.services@ == k1.services@,
        k3.judged(k2, d, v),
        d.service == Some(idx as usize),
        idx <= usize::MAX,
        k4.started(k3, idx, second, rip),
    ensures
        k4.sched.task(second)->0.caps@ == k1.sched.task(first)->0.caps@,
        k4.services@[idx].spec == k0.services@[idx].spec,
{
}

/// A service is done if and only if it ended with 0. Any other end, a crash or a
/// failure, has it started again and counts one restart more. The code it ended
/// with is kept, what it is started from stays, and no other service notices. A
/// thread that belongs to none concerns no service.
pub proof fn lemma_verdict(k0: &Kernel, k1: &Kernel, d: Dead, v: Verdict, j: int)
    requires
        k1.judged(k0, d, v),
        d.service matches Some(i) ==> i < k0.services@.len() && k0.services@[i as int].restarts < u32::MAX,
        0 <= j < k0.services@.len() <= usize::MAX,
    ensures
        k1.services@.len() == k0.services@.len(),
        d.service != Some(j as usize) ==> k1.services@[j] == k0.services@[j],
        d.service is None ==> v is Thread,
        d.service == Some(j as usize) ==> {
            let s0 = k0.services@[j];
            let s1 = k1.services@[j];
            &&& v is Finished <==> d.code == 0
            &&& v is Restart <==> d.code < 0 || d.code > 0
            &&& v is Finished ==> v->Finished_service == j && s1.restarts == s0.restarts
            &&& v is Restart ==> v->Restart_service == j && s1.restarts == s0.restarts + 1 && v->restarts
                == s1.restarts
            &&& v is Restart ==> (v->delay_ms == 0 <==> s1.restarts <= 3) && v->delay_ms <= 3000
            &&& s1.task is None
            &&& s1.last_exit == Some(d.code)
            &&& s1.spec == s0.spec
        },
{
}

/// The first three restarts are made at once. From then on each waits a fifth of a
/// second longer than the one before, until the wait is three seconds, and stays
/// that.
pub proof fn lemma_backoff_steps(n: int)
    requires
        n >= 0,
    ensures
        n <= 3 ==> backoff_ms(n) == 0,
        n >= 3 && backoff_ms(n) < 3000 ==> backoff_ms(n + 1) == backoff_ms(n) + 200,
        n >= 3 && backoff_ms(n) >= 3000 ==> backoff_ms(n) == 3000 && backoff_ms(n + 1) == 3000,
{
}

/// With nobody dead the supervisor looks again after a twentieth of a second, and
/// it looks again as soon as a service is started or found to be done.
pub proof fn lemma_supervisor_keeps_looking(s: Supervisor, v: Verdict)
    ensures
        ({
            let (s1, d1) = next_duty(s, Outcome::Reaped(None));
            &&& d1 == Duty::Sleep(50)
            &&& next_duty(s1, Outcome::Slept).1 == Duty::Reap
        }),
        next_duty(s, Outcome::Started).1 == Duty::Reap,
        !(v is Restart) ==> next_duty(s, Outcome::Reaped(Some(v))).1 == Duty::Reap,
{
}

/// Slot `i` of a new task holds grant `i` of its service, for every grant that
/// there is a slot for, and there are 256.
pub proof fn lemma_slots_follow_grants(k0: &Kernel, k1: &Kernel, idx: int, id: TaskId, rip: u64, i: int)
    requires
        0 <= idx < k0.services@.len(),
        k1.started(k0, idx, id, rip),
        0 <= i < 256,
    ensures
        ({
            let grants = k0.services@[idx].spec.grants@;
            &&& k1.sched.task(id) matches Some(t) && {
                &&& i < grants.len() ==> i < t.caps@.len() && t.caps@[i] == Some(grants[i])
                &&& i >= grants.len() ==> i >= t.caps@.len()
                &&& t.caps@.len() <= 256
                &&& t.state == State::Ready
                &&& t.service == Some(idx as usize)
                &&& t.user matches Some(u) && u.rip == rip && u.rsp == USER_STACK_TOP - 16
            }
            &&& k1.services@[idx].task == Some(id)
            &&& k1.sched.ready@.len() == k0.sched.ready@.len() + 1
            &&& k1.sched.ready@.last() == id
        }),
{
}

/// A service is looked up by its name: the first of that name is found, and none
/// only if none has it.
pub proof fn lemma_first_of_name(services: Seq<ServiceState>, name: Seq<u8>, i: int, j: int)
    requires
        0 <= i <= j <= services.len(),
        forall|k: int| i <= k < j ==> (#[trigger] services[k]).spec.name.spec_bytes() != name,
    ensures
        j == services.len() ==> Kernel::service_named(services, name, i) is None,
        j < services.len() && services[j].spec.name.spec_bytes() == name ==> Kernel::service_named(
            services,
            name,
            i,
        ) == Some(services[j]),
    decreases j - i,
{
    if i < j {
        assert(services[i].spec.name.spec_bytes() != name);
        lemma_first_of_name(services, name, i + 1, j);
    }
}

/// A service loaded at runtime has a name of visible characters: no blank, no
/// control character, nothing beyond ASCII, and at least one.
pub proof fn lemma_name_visible(name: Seq<u8>, i: int)
    ensures
        name.len() == 0 ==> !good_name(name),
        0 <= i < name.len() && (name[i] <= 0x20 || name[i] >= 0x7f) ==> !good_name(name),
        name.len() > 0 && !good_name(name) ==> exists|k: int|
            0 <= k < name.len() && ((#[trigger] name[k]) <= 0x20 || name[k] >= 0x7f),
{
}

} // verus!
