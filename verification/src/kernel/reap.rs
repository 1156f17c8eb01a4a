//! Taking down a dead task: everything it held goes back.
use vstd::prelude::*;

use crate::kernel::bitmap;
use crate::kernel::count;
use crate::kernel::memory;
use crate::kernel::obj::{Capability, Object, Rights};
use crate::kernel::sched;
use crate::kernel::sched::Scheduler;
use crate::kernel::state;
use crate::kernel::state::Kernel;
use crate::kernel::task::{Mapping, Task, TaskId};

verus! {

/// What is left of a task after it was taken down.
pub struct Dead {
    pub id: TaskId,
    pub name: &'static str,
    pub code: i64,
    pub service: Option<usize>,
}

/// What a dead task left: its exit code is 0 if it gave none.
pub open spec fn remains(t: Task, d: Dead) -> bool {
    &&& d.id == t.id
    &&& d.name == t.name
    &&& d.code == match t.exit_code {
        Some(c) => c,
        None => 0,
    }
    &&& d.service == t.service
}

/// Everything a task refers to: what its table holds, what it was sent and what
/// is mapped into its address space.
fn held(t: &Task) -> (r: Vec<Option<Capability>>)
    ensures
        forall|id: u32| #[trigger] count::sum(r@, state::slot_weight(id)) == state::task_refs(*t, id),
{
    let mut r: Vec<Option<Capability>> = Vec::new();
    let n: usize = t.caps.slots.len();
    let mut i: usize = 0;
    while i < n
        invariant
            i <= n,
            n == t.caps@.len(),
            r@ == t.caps@.subrange(0, i as int),
        decreases n - i,
    {
        r.push(t.caps.slots[i]);
        i = i + 1;
        assert(r@ =~= t.caps@.subrange(0, i as int));
    }
    assert(r@ =~= t.caps@);
    if let Some(m) = &t.ipc_inbox {
        let ghost r0 = r@;
        r.push(m.cap);
        proof {
            assert forall|id: u32| #[trigger] count::sum(r@, state::slot_weight(id)) == count::sum(
                t.caps@,
                state::slot_weight(id),
            ) + state::inbox_refs(t.ipc_inbox, id) by {
                count::lemma_sum_push(r0, m.cap, state::slot_weight(id));
            }
        }
    }
    let k: usize = t.maps.len();
    let mut i: usize = 0;
    proof {
        assert forall|id: u32| #[trigger] count::sum(
            t.maps@.subrange(0, 0),
            state::map_weight(id),
        ) == 0 by {}
    }
    while i < k
        invariant
            i <= k,
            k == t.maps@.len(),
            forall|id: u32| #[trigger]
                count::sum(r@, state::slot_weight(id)) == count::sum(t.caps@, state::slot_weight(id))
                    + state::inbox_refs(t.ipc_inbox, id) + count::sum(
                    t.maps@.subrange(0, i as int),
                    state::map_weight(id),
                ),
        decreases k - i,
    {
        let ghost r0 = r@;
        let m: Mapping = t.maps[i];
        let c: Capability = Capability { object: Object::Memory(m.object), rights: Rights(0) };
        r.push(Some(c));
        proof {
            assert forall|id: u32| #[trigger] count::sum(r@, state::slot_weight(id)) == count::sum(
                t.caps@,
                state::slot_weight(id),
            ) + state::inbox_refs(t.ipc_inbox, id) + count::sum(
                t.maps@.subrange(0, i + 1),
                state::map_weight(id),
            ) by {
                count::lemma_sum_push(r0, Some(c), state::slot_weight(id));
                count::lemma_sum_push(t.maps@.subrange(0, i as int), m, state::map_weight(id));
                assert(t.maps@.subrange(0, i + 1) =~= t.maps@.subrange(0, i as int).push(m));
            }
        }
        i = i + 1;
    }
    assert(t.maps@.subrange(0, k as int) =~= t.maps@);
    r
}

impl Kernel {
    /// Memory objects only went away from `old` to `self`: those that are left
    /// have the frames they had, and exactly the frames of the others are free
    /// again.
    pub open spec fn shrunk(&self, old: &Kernel, b0: Seq<u64>, b1: Seq<u64>) -> bool {
        &&& self.bm.frames == old.bm.frames
        &&& self.bm.total_usable == old.bm.total_usable
        &&& b1.len() == b0.len()
        &&& self.mem.objects@.len() == old.mem.objects@.len()
        &&& forall|i: int| #[trigger]
            self.mem.live(i) ==> old.mem.live(i) && self.mem.objects@[i]->0.object == old.mem.objects@[i]->0.object
        &&& forall|j: int|
            0 <= j < b0.len() * 64 ==> #[trigger] bitmap::used(b1, j) == (bitmap::used(b0, j)
                && !self.given_back(old, j))
    }

    /// Frame `j` belonged to an object that is gone.
    pub open spec fn given_back(&self, old: &Kernel, j: int) -> bool {
        exists|i: int| #[trigger]
            old.mem.live(i) && !self.mem.live(i) && memory::lists(old.mem.frames_of(i), j)
    }

    proof fn lemma_dropped_shrunk(
        &self,
        mid: &Kernel,
        old: &Kernel,
        c: Option<Capability>,
        b0: Seq<u64>,
        b1: Seq<u64>,
        b2: Seq<u64>,
    )
        requires
            mid.shrunk(old, b0, b1),
            self.dropped(mid, c, b1, b2),
            mid.bm.wf(b1),
            mid.mem.wf(b1, mid.bm.frames as int),
            c matches Some(Capability { object: Object::Memory(id), .. }) ==> mid.mem.live(id as int),
        ensures
            self.shrunk(old, b0, b2),
    {
        assert forall|i: int| #[trigger] self.mem.live(i) implies old.mem.live(i)
            && self.mem.objects@[i]->0.object == old.mem.objects@[i]->0.object by {
            assert(mid.mem.live(i));
        }
        assert forall|j: int| 0 <= j < b0.len() * 64 implies #[trigger] bitmap::used(b2, j) == (
        bitmap::used(b0, j) && !self.given_back(old, j)) by {
            assert(bitmap::used(b1, j) == (bitmap::used(b0, j) && !mid.given_back(old, j)));
            if mid.given_back(old, j) {
                let i = choose|i: int| #[trigger]
                    old.mem.live(i) && !mid.mem.live(i) && memory::lists(old.mem.frames_of(i), j);
                assert(!self.mem.live(i));
                assert(self.given_back(old, j));
            }
            if self.given_back(old, j) && !mid.given_back(old, j) {
                let i = choose|i: int| #[trigger]
                    old.mem.live(i) && !self.mem.live(i) && memory::lists(old.mem.frames_of(i), j);
                assert(mid.mem.live(i));
                assert(mid.mem.frames_of(i) == old.mem.frames_of(i));
            }
            if let Some(Capability { object: Object::Memory(id), .. }) = c {
                if mid.mem.objects@[id as int]->0.refs <= 1 && memory::lists(
                    mid.mem.frames_of(id as int),
                    j,
                ) {
                    assert(old.mem.live(id as int) && !self.mem.live(id as int));
                    assert(old.mem.frames_of(id as int) == mid.mem.frames_of(id as int));
                    assert(self.given_back(old, j));
                }
            }
        }
    }

    /// Give up capabilities that are on their way.
    pub(crate) fn drop_all(&mut self, bits: &mut [u64], list: Vec<Option<Capability>>)
        requires
            old(self).wf_with(old(bits)@, list@),
        ensures
            final(self).wf(final(bits)@),
            final(self).sched == old(self).sched,
            final(self).eps == old(self).eps,
            final(self).services == old(self).services,
            final(self).shrunk(old(self), old(bits)@, final(bits)@),
    {
        let mut list: Vec<Option<Capability>> = list;
        let ghost b0 = bits@;
        proof {
            assert forall|j: int| 0 <= j < b0.len() * 64 implies #[trigger] bitmap::used(b0, j) == (
            bitmap::used(b0, j) && !self.given_back(self, j)) by {}
        }
        while list.len() > 0
            invariant
                self.wf_with(bits@, list@),
                self.sched == old(self).sched,
                self.eps == old(self).eps,
                self.services == old(self).services,
                self.shrunk(old(self), b0, bits@),
            decreases list@.len(),
        {
            let ghost l0 = list@;
            let ghost mid = *self;
            let ghost b1 = bits@;
            if let Some(c) = list.pop() {
                assert(l0 =~= list@.push(c));
                proof {
                    if let Some(Capability { object: Object::Memory(id), .. }) = c {
                        self.lemma_loose_live(bits@, list@, c);
                    }
                }
                self.drop_loose(bits, c, Ghost(list@));
                proof {
                    self.lemma_dropped_shrunk(&mid, old(self), c, b0, b1, bits@);
                }
            }
        }
        assert(list@ =~= Seq::empty());
    }

    /// A memory object that a capability on its way refers to exists.
    pub(crate) proof fn lemma_loose_live(
        &self,
        bits: Seq<u64>,
        rest: Seq<Option<Capability>>,
        c: Option<Capability>,
    )
        requires
            self.wf_with(bits, rest.push(c)),
        ensures
            c matches Some(Capability { object: Object::Memory(id), .. }) ==> self.mem.live(id as int),
    {
        if let Some(Capability { object: Object::Memory(id), .. }) = c {
            count::lemma_sum_push(rest, c, state::slot_weight(id));
            count::lemma_sum_nonneg(rest, state::slot_weight(id));
            self.lemma_holders_nonneg(id);
            assert(self.mem.refs(id) >= 1);
        }
    }

    /// `self` is `old` after the dead task `r`, if there was one, was taken down,
    /// with the frame map going from `b0` to `b1`.
    pub open spec fn took_down(&self, old: &Kernel, b0: Seq<u64>, b1: Seq<u64>, r: Option<Dead>) -> bool {
        let s = old.sched;
        let k = Scheduler::first_dead(s.tasks@, s.reap@, 0);
        let p = sched::pos(s.tasks@, s.reap@[k], 0);
        if k < s.reap@.len() {
            &&& 0 <= p < s.tasks@.len()
            &&& r matches Some(d) && remains(s.tasks@[p], d)
            &&& self.sched.tasks@ == s.tasks@.remove(p)
            &&& self.sched.reap@ == s.reap@.remove(k)
            &&& self.shrunk(old, b0, b1)
            &&& forall|id: u32| #[trigger]
                self.mem.refs(id) == old.mem.refs(id) - state::task_refs(
                    s.tasks@[p],
                    id,
                )
        } else {
            &&& r is None
            &&& self.sched.tasks@ == s.tasks@
            &&& self.sched.reap@ == s.reap@
            &&& self.mem == old.mem
            &&& self.bm == old.bm
            &&& b1 == b0
        }
    }

    /// Take down a dead task that has left its CPU, if there is one: whatever it
    /// held is given up.
    pub fn reap(&mut self, bits: &mut [u64]) -> (r: Option<Dead>)
        requires
            old(self).wf(old(bits)@),
        ensures
            final(self).wf(final(bits)@),
            final(self).eps == old(self).eps,
            final(self).services == old(self).services,
            final(self).sched.ready@ == old(self).sched.ready@,
            final(self).sched.next_id == old(self).sched.next_id,
            final(self).sched.supervisor == old(self).sched.supervisor,
            final(self).took_down(old(self), old(bits)@, final(bits)@, r),
    {
        let ghost s = self.sched;
        let ghost k = Scheduler::first_dead(s.tasks@, s.reap@, 0);
        let ghost p = sched::pos(s.tasks@, s.reap@[k], 0);
        match self.sched.take_dead() {
            None => {
                assert(self.sched.tasks@ =~= s.tasks@);
                proof {
                    assert forall|id: u32| #[trigger] self.mem.refs(id) == self.holders(id) + count::sum(
                        Seq::<Option<Capability>>::empty(),
                        state::slot_weight(id),
                    ) by {
                        assert(old(self).mem.refs(id) == old(self).holders(id) + count::sum(
                            Seq::<Option<Capability>>::empty(),
                            state::slot_weight(id),
                        ));
                    }
                }
                None
            },
            Some(t) => {
                let list: Vec<Option<Capability>> = held(&t);
                let ghost l = list@;
                proof {
                    let ts = self.sched.tasks@;
                    assert forall|i: int| 0 <= i < ts.len() implies (#[trigger] ts[i]) == s.tasks@[if i < p {
                        i
                    } else {
                        i + 1
                    }] by {}
                    assert(self.tables_ok());
                    assert(self.inboxes_ok());
                    assert forall|id: u32| #[trigger] self.mem.refs(id) == self.holders(id) + count::sum(
                        l,
                        state::slot_weight(id),
                    ) by {
                        assert(old(self).mem.refs(id) == old(self).holders(id) + count::sum(
                            Seq::<Option<Capability>>::empty(),
                            state::slot_weight(id),
                        ));
                        count::lemma_sum_remove(s.tasks@, p, state::task_weight(id));
                    }
                }
                let ghost k1 = *self;
                self.drop_all(bits, list);
                proof {
                    assert forall|id: u32| #[trigger] self.mem.refs(id) == old(self).mem.refs(id)
                        - state::task_refs(t, id) by {
                        assert(k1.mem.refs(id) == k1.holders(id) + count::sum(l, state::slot_weight(id)));
                        assert(self.mem.refs(id) == self.holders(id) + count::sum(
                            Seq::<Option<Capability>>::empty(),
                            state::slot_weight(id),
                        ));
                        assert(old(self).mem.refs(id) == k1.mem.refs(id));
                    }
                    assert forall|j: int| self.given_back(&k1, j) == self.given_back(old(self), j) by {
                        assert forall|i: int| #[trigger] k1.mem.live(i) == old(self).mem.live(i) by {}
                        if self.given_back(&k1, j) {
                            let i = choose|i: int| #[trigger]
                                k1.mem.live(i) && !self.mem.live(i) && memory::lists(
                                    k1.mem.frames_of(i),
                                    j,
                                );
                            assert(old(self).mem.live(i));
                        }
                        if self.given_back(old(self), j) {
                            let i = choose|i: int| #[trigger]
                                old(self).mem.live(i) && !self.mem.live(i) && memory::lists(
                                    old(self).mem.frames_of(i),
                                    j,
                                );
                            assert(k1.mem.live(i));
                        }
                    }
                }
                let code: i64 = match t.exit_code {
                    Some(c) => c,
                    None => 0,
                };
                Some(Dead { id: t.id, name: t.name, code, service: t.service })
            },
        }
    }
}

} // verus!
