//! The services the kernel starts at boot and the capabilities they are given.
use vstd::prelude::*;
use vstd::string::*;

use crate::kernel::count;
use crate::kernel::obj::{Capability, Object, Rights};
use crate::kernel::services::{ServiceSpec, ServiceState, MAX_SERVICES};
use crate::kernel::state;
use crate::kernel::state::Kernel;
use crate::rt::abi::{
    RIGHT_GRANT, RIGHT_MAP_READ, RIGHT_MAP_WRITE, RIGHT_RECV, RIGHT_SEND, RIGHT_SPAWN,
};

verus! {

/// The programs the kernel starts at boot.
pub struct Images {
    pub kbd: &'static [u8],
    pub blk: &'static [u8],
    pub fs: &'static [u8],
    pub pong: &'static [u8],
    pub ping: &'static [u8],
}

/// The endpoints the boot services talk over.
#[derive(Clone, Copy)]
pub struct Wiring {
    /// ping's requests to pong.
    pub req: u32,
    /// pong's replies.
    pub rep: u32,
    /// Block requests to blk.
    pub blk_req: u32,
    /// The half of the file service's pair it receives on.
    pub fs_serve: u32,
    /// The half it hands out so that a service can call it.
    pub fs_call: u32,
}

pub open spec fn cap(object: Object, rights: u32) -> Capability {
    Capability { object, rights: Rights(rights) }
}

/// The names of the boot services, in the order of the table.
pub open spec fn boot_name(i: int) -> Seq<char> {
    if i == 0 {
        "kbd"@
    } else if i == 1 {
        "blk"@
    } else if i == 2 {
        "fs"@
    } else if i == 3 {
        "pong"@
    } else {
        "ping"@
    }
}

pub open spec fn boot_image(images: Images, i: int) -> &'static [u8] {
    if i == 0 {
        images.kbd
    } else if i == 1 {
        images.blk
    } else if i == 2 {
        images.fs
    } else if i == 3 {
        images.pong
    } else {
        images.ping
    }
}

/// What the boot services are given. The keyboard driver gets its interrupt and
/// the ports of the controller; the storage driver the first NVMe controller, if
/// there is one, and its request queue; the file service the requests to
/// storage, the authority to start services and both halves of its own pair.
pub open spec fn boot_grants(w: Wiring, kbd_irq: u32, nvme: Option<u32>, i: int) -> Seq<Capability> {
    if i == 0 {
        seq![
            cap(Object::Irq(kbd_irq), RIGHT_RECV),
            cap(Object::Port { base: 0x60, len: 5 }, RIGHT_MAP_READ),
        ]
    } else if i == 1 {
        match nvme {
            Some(d) => seq![
                cap(Object::Device(d), RIGHT_MAP_READ | RIGHT_MAP_WRITE),
                cap(Object::Endpoint(w.blk_req), RIGHT_RECV),
            ],
            None => seq![cap(Object::Endpoint(w.blk_req), RIGHT_RECV)],
        }
    } else if i == 2 {
        seq![
            cap(Object::Endpoint(w.blk_req), RIGHT_SEND),
            cap(Object::Control, RIGHT_SPAWN | RIGHT_GRANT),
            cap(Object::Endpoint(w.fs_serve), RIGHT_RECV),
            cap(Object::Endpoint(w.fs_call), RIGHT_SEND | RIGHT_GRANT),
        ]
    } else if i == 3 {
        seq![cap(Object::Endpoint(w.req), RIGHT_RECV), cap(Object::Endpoint(w.rep), RIGHT_SEND)]
    } else {
        seq![cap(Object::Endpoint(w.req), RIGHT_SEND), cap(Object::Endpoint(w.rep), RIGHT_RECV)]
    }
}

/// Service `i` of the boot services, before its first start.
pub open spec fn boot_service(
    s: ServiceState,
    images: Images,
    w: Wiring,
    kbd_irq: u32,
    nvme: Option<u32>,
    i: int,
) -> bool {
    &&& s.spec.name@ == boot_name(i)
    &&& s.spec.image == boot_image(images, i)
    &&& s.spec.grants@ == boot_grants(w, kbd_irq, nvme, i)
    &&& !s.spec.dynamic
    &&& s.spec.args@ == Seq::<u8>::empty()
    &&& s.task is None
    &&& s.restarts == 0
    &&& s.last_exit is None
}

/// Whether some capability in a list is for endpoint `e` and carries a right.
pub open spec fn may(list: Seq<Capability>, e: u32, rights: u32) -> bool {
    exists|i: int|
        0 <= i < list.len() && (#[trigger] list[i]).object == Object::Endpoint(e) && list[i].rights.has(
            Rights(rights),
        )
}

/// Of every pair of ends, one only receives and the others only send: the file
/// service may receive requests and cannot send any, whoever it hands its
/// calling half to can only send; requests to storage and between ping and pong
/// go one way. None of these rights has to be widened to pass one on.
pub proof fn lemma_one_way(w: Wiring, kbd_irq: u32, nvme: Option<u32>)
    requires
        w.req != w.rep,
        w.req != w.blk_req,
        w.rep != w.blk_req,
        w.fs_serve != w.fs_call,
        w.fs_serve != w.blk_req,
        w.fs_call != w.blk_req,
    ensures
        may(boot_grants(w, kbd_irq, nvme, 2), w.fs_serve, RIGHT_RECV),
        !may(boot_grants(w, kbd_irq, nvme, 2), w.fs_serve, RIGHT_SEND),
        !may(boot_grants(w, kbd_irq, nvme, 2), w.fs_serve, RIGHT_GRANT),
        may(boot_grants(w, kbd_irq, nvme, 2), w.fs_call, RIGHT_SEND | RIGHT_GRANT),
        !may(boot_grants(w, kbd_irq, nvme, 2), w.fs_call, RIGHT_RECV),
        may(boot_grants(w, kbd_irq, nvme, 1), w.blk_req, RIGHT_RECV),
        !may(boot_grants(w, kbd_irq, nvme, 1), w.blk_req, RIGHT_SEND),
        may(boot_grants(w, kbd_irq, nvme, 2), w.blk_req, RIGHT_SEND),
        !may(boot_grants(w, kbd_irq, nvme, 2), w.blk_req, RIGHT_RECV),
{
    assert(1u32 & 1 == 1 && 2u32 & 2 == 2 && 1u32 & 2 != 2 && 2u32 & 1 != 1 && 2u32 & 4 != 4 && (1u32
        | 4) & (1u32 | 4) == 1u32 | 4 && (1u32 | 4) & 2 != 2) by (bit_vector);
    let fs = boot_grants(w, kbd_irq, nvme, 2);
    assert(fs[2] == cap(Object::Endpoint(w.fs_serve), RIGHT_RECV));
    assert(fs[3] == cap(Object::Endpoint(w.fs_call), RIGHT_SEND | RIGHT_GRANT));
    assert(fs[0] == cap(Object::Endpoint(w.blk_req), RIGHT_SEND));
    let blk = boot_grants(w, kbd_irq, nvme, 1);
    assert(blk[blk.len() - 1] == cap(Object::Endpoint(w.blk_req), RIGHT_RECV));
}

/// New endpoints without messages refer to nothing.
proof fn lemma_no_messages(a: Seq<crate::kernel::ipc::Endpoint>, b: Seq<crate::kernel::ipc::Endpoint>, id: u32)
    requires
        a.len() <= b.len(),
        forall|i: int| 0 <= i < a.len() ==> #[trigger] b[i] == a[i],
        forall|i: int| a.len() <= i < b.len() ==> (#[trigger] b[i]).queue@.len() == 0,
    ensures
        count::sum(b, state::ep_weight(id)) == count::sum(a, state::ep_weight(id)),
    decreases b.len(),
{
    if a.len() == b.len() {
        assert(a =~= b);
    } else {
        lemma_no_messages(a, b.drop_last(), id);
        assert(b.last() == b[b.len() - 1]);
    }
}

/// No capability in a list is for a memory object.
spec fn no_memory(list: Seq<Capability>) -> bool {
    forall|i: int| 0 <= i < list.len() ==> (#[trigger] list[i]).object !is Memory
}

proof fn lemma_no_memory(list: Seq<Capability>, id: u32)
    requires
        no_memory(list),
    ensures
        count::sum(list, state::cap_weight(id)) == 0,
    decreases list.len(),
{
    if list.len() > 0 {
        assert forall|i: int| 0 <= i < list.drop_last().len() implies (
        #[trigger] list.drop_last()[i]).object !is Memory by {
            assert(list[i].object !is Memory);
        }
        lemma_no_memory(list.drop_last(), id);
        assert(list[list.len() - 1].object !is Memory);
    }
}

impl Kernel {
    /// Nothing but the service table and the endpoints differs from `old`, as
    /// far as anyone can tell.
    pub open spec fn same_objects(&self, old: &Kernel) -> bool {
        &&& self.sched == old.sched
        &&& self.recounted(old)
        &&& forall|id: u32| #[trigger] self.mem.refs(id) == old.mem.refs(id)
    }

    fn add_boot(&mut self, bits: &[u64], name: &'static str, image: &'static [u8], grants: Vec<Capability>)
        requires
            old(self).wf(bits@),
            no_memory(grants@),
        ensures
            final(self).wf(bits@),
            final(self).eps == old(self).eps,
            final(self).same_objects(old(self)),
            forall|j: int|
                0 <= j < old(self).services@.len() ==> #[trigger] final(self).services@[j] == old(
                    self,
                ).services@[j],
            old(self).services@.len() >= MAX_SERVICES ==> final(self).services@.len() == old(
                self,
            ).services@.len(),
            old(self).services@.len() < MAX_SERVICES ==> {
                let s = final(self).services@[old(self).services@.len() as int];
                &&& final(self).services@.len() == old(self).services@.len() + 1
                &&& s.spec.name == name
                &&& s.spec.image == image
                &&& s.spec.grants == grants
                &&& !s.spec.dynamic
                &&& s.spec.args@ == Seq::<u8>::empty()
                &&& s.task is None
                &&& s.restarts == 0
                &&& s.last_exit is None
            },
    {
        proof {
            assert forall|id: u32| #[trigger] self.mem.refs(id) + count::sum(grants@, state::cap_weight(id))
                <= u64::MAX by {
                lemma_no_memory(grants@, id);
            }
            assert(self.all_live(grants@));
        }
        let _ = self.register(
            bits,
            ServiceSpec { name, image, grants, dynamic: false, args: Vec::new() },
        );
        proof {
            assert forall|id: u32| #[trigger] self.mem.refs(id) == old(self).mem.refs(id) by {
                lemma_no_memory(grants@, id);
            }
            if old(self).services@.len() < MAX_SERVICES {
                assert forall|j: int| 0 <= j < old(self).services@.len() implies #[trigger] self.services@[j]
                    == old(self).services@[j] by {
                    assert(self.services@.drop_last()[j] == self.services@[j]);
                }
            }
        }
    }

    /// The endpoints the boot services talk over.
    fn wire(&mut self, bits: &[u64]) -> (w: Wiring)
        requires
            old(self).wf(bits@),
            old(self).eps.eps@.len() + 5 < u32::MAX,
        ensures
            final(self).wf(bits@),
            final(self).sched == old(self).sched,
            final(self).mem == old(self).mem,
            final(self).bm == old(self).bm,
            final(self).services == old(self).services,
            final(self).wired(old(self), w),
    {
        let req: u32 = self.eps.create();
        let ghost e1 = self.eps.eps@;
        let rep: u32 = self.eps.create();
        let ghost e2 = self.eps.eps@;
        let blk_req: u32 = self.eps.create();
        let ghost e3 = self.eps.eps@;
        let (fs_serve, fs_call) = self.eps.new_pair();
        proof {
            let e0 = old(self).eps.eps@;
            let e5 = self.eps.eps@;
            assert forall|i: int| 0 <= i < e0.len() implies #[trigger] e5[i] == e0[i] by {
                assert(e3[i] == e3.drop_last()[i]);
                assert(e2[i] == e2.drop_last()[i]);
                assert(e1[i] == e1.drop_last()[i]);
            }
            assert(e5[req as int] == e3[req as int] && e3[req as int] == e3.drop_last()[req as int]
                && e2[req as int] == e2.drop_last()[req as int]);
            assert(e5[rep as int] == e3[rep as int] && e3[rep as int] == e3.drop_last()[rep as int]);
            assert(e5[blk_req as int] == e3[blk_req as int]);
            assert forall|id: u32| #[trigger] self.mem.refs(id) == self.holders(id) + count::sum(
                Seq::<Option<Capability>>::empty(),
                state::slot_weight(id),
            ) by {
                assert(old(self).mem.refs(id) == old(self).holders(id) + count::sum(
                    Seq::<Option<Capability>>::empty(),
                    state::slot_weight(id),
                ));
                lemma_no_messages(e0, e5, id);
            }
        }
        Wiring { req, rep, blk_req, fs_serve, fs_call }
    }

    /// Five endpoints more than `old` has: three of their own, and a pair.
    pub open spec fn wired(&self, old: &Kernel, w: Wiring) -> bool {
        let n = old.eps.eps@.len();
        &&& self.eps.eps@.len() == n + 5
        &&& forall|i: int| 0 <= i < n ==> #[trigger] self.eps.eps@[i] == old.eps.eps@[i]
        &&& forall|i: int|
            n <= i < n + 5 ==> (#[trigger] self.eps.eps@[i]).queue@.len() == 0
                && self.eps.eps@[i].receivers@.len() == 0
        &&& w.req == n
        &&& w.rep == n + 1
        &&& w.blk_req == n + 2
        &&& w.fs_serve == n + 3
        &&& w.fs_call == n + 4
        &&& self.eps.target(w.req) == w.req
        &&& self.eps.target(w.rep) == w.rep
        &&& self.eps.target(w.blk_req) == w.blk_req
        &&& self.eps.target(w.fs_serve) == w.fs_call
        &&& self.eps.target(w.fs_call) == w.fs_serve
    }

    /// Register the boot services and wire their capabilities. `kbd_irq` is the
    /// keyboard's interrupt, `nvme` the first NVMe controller if there is one.
    pub fn init_builtin(&mut self, bits: &[u64], images: Images, kbd_irq: u32, nvme: Option<u32>) -> (w: Wiring)
        requires
            old(self).wf(bits@),
            old(self).eps.eps@.len() + 5 < u32::MAX,
        ensures
            final(self).wf(bits@),
            final(self).wired(old(self), w),
            final(self).same_objects(old(self)),
            forall|j: int|
                0 <= j < old(self).services@.len() ==> #[trigger] final(self).services@[j] == old(
                    self,
                ).services@[j],
            final(self).services@.len() == if old(self).services@.len() + 5 <= MAX_SERVICES {
                (old(self).services@.len() + 5) as int
            } else if old(self).services@.len() <= MAX_SERVICES {
                MAX_SERVICES as int
            } else {
                old(self).services@.len() as int
            },
            forall|i: int|
                0 <= i < 5 && old(self).services@.len() + i < MAX_SERVICES ==> #[trigger] boot_service(
                    final(self).services@[old(self).services@.len() + i],
                    images,
                    w,
                    kbd_irq,
                    nvme,
                    i,
                ),
    {
        let ghost n = self.services@.len() as int;
        let w: Wiring = self.wire(bits);
        let mut kbd: Vec<Capability> = Vec::new();
        kbd.push(Capability { object: Object::Irq(kbd_irq), rights: Rights(RIGHT_RECV) });
        kbd.push(
            Capability { object: Object::Port { base: 0x60, len: 5 }, rights: Rights(RIGHT_MAP_READ) },
        );
        assert(kbd@ =~= boot_grants(w, kbd_irq, nvme, 0));
        self.add_boot(bits, "kbd", images.kbd, kbd);
        let mut blk: Vec<Capability> = Vec::new();
        if let Some(d) = nvme {
            let rights: Rights = Rights(RIGHT_MAP_READ).union(Rights(RIGHT_MAP_WRITE));
            blk.push(Capability { object: Object::Device(d), rights });
        }
        blk.push(Capability { object: Object::Endpoint(w.blk_req), rights: Rights(RIGHT_RECV) });
        assert(blk@ =~= boot_grants(w, kbd_irq, nvme, 1));
        self.add_boot(bits, "blk", images.blk, blk);
        let mut fs: Vec<Capability> = Vec::new();
        fs.push(Capability { object: Object::Endpoint(w.blk_req), rights: Rights(RIGHT_SEND) });
        fs.push(
            Capability {
                object: Object::Control,
                rights: Rights(RIGHT_SPAWN).union(Rights(RIGHT_GRANT)),
            },
        );
        fs.push(Capability { object: Object::Endpoint(w.fs_serve), rights: Rights(RIGHT_RECV) });
        fs.push(
            Capability {
                object: Object::Endpoint(w.fs_call),
                rights: Rights(RIGHT_SEND).union(Rights(RIGHT_GRANT)),
            },
        );
        assert(fs@ =~= boot_grants(w, kbd_irq, nvme, 2));
        self.add_boot(bits, "fs", images.fs, fs);
        let mut pong: Vec<Capability> = Vec::new();
        pong.push(Capability { object: Object::Endpoint(w.req), rights: Rights(RIGHT_RECV) });
        pong.push(Capability { object: Object::Endpoint(w.rep), rights: Rights(RIGHT_SEND) });
        assert(pong@ =~= boot_grants(w, kbd_irq, nvme, 3));
        self.add_boot(bits, "pong", images.pong, pong);
        let mut ping: Vec<Capability> = Vec::new();
        ping.push(Capability { object: Object::Endpoint(w.req), rights: Rights(RIGHT_SEND) });
        ping.push(Capability { object: Object::Endpoint(w.rep), rights: Rights(RIGHT_RECV) });
        assert(ping@ =~= boot_grants(w, kbd_irq, nvme, 4));
        self.add_boot(bits, "ping", images.ping, ping);
        proof {
            assert forall|i: int| 0 <= i < 5 && n + i < MAX_SERVICES implies #[trigger] boot_service(
                self.services@[n + i],
                images,
                w,
                kbd_irq,
                nvme,
                i,
            ) by {
                assert(i == 0 || i == 1 || i == 2 || i == 3 || i == 4);
            }
        }
        w
    }
}

/// What each boot service holds. Only the file service may start services. Only
/// the keyboard driver has an interrupt, which it may only wait for, and ports:
/// those of the keyboard controller. Only the storage driver has a device.
pub proof fn lemma_boot_authority(
    s: ServiceState,
    images: Images,
    w: Wiring,
    kbd_irq: u32,
    nvme: Option<u32>,
    i: int,
    g: int,
)
    requires
        0 <= i < 5,
        boot_service(s, images, w, kbd_irq, nvme, i),
        0 <= g < s.spec.grants@.len(),
    ensures
        ({
            let c = s.spec.grants@[g];
            &&& c.object is Control <==> i == 2 && g == 1
            &&& c.object is Control ==> c.rights == Rights(0x44)
            &&& c.object is Irq <==> i == 0 && g == 0
            &&& c.object is Irq ==> c.object == Object::Irq(kbd_irq) && c.rights == Rights(0x02)
            &&& c.object is Port <==> i == 0 && g == 1
            &&& c.object is Port ==> c.object == (Object::Port { base: 0x60, len: 5 }) && c.rights == Rights(0x08)
            &&& c.object is Device <==> i == 1 && g == 0 && nvme is Some
            &&& c.object is Device ==> c.object == Object::Device(nvme->0) && c.rights == Rights(0x18)
            &&& c.object !is Memory
            &&& c.object is Endpoint ==> c.rights == Rights(0x01) || c.rights == Rights(0x02) || c.rights
                == Rights(0x05)
        }),
        s.spec.grants@.len() == if i == 2 {
            4
        } else if i == 1 && nvme is None {
            1
        } else {
            2int
        },
{
    assert(0x40u32 | 0x04u32 == 0x44u32 && 0x08u32 | 0x10u32 == 0x18u32 && 0x01u32 | 0x04u32 == 0x05u32)
        by (bit_vector);
}

/// The boot services fit together: what ping sends on, pong receives on, and the
/// other way round; what the file service asks storage on, the storage driver
/// receives on, after its device if it has one; and what the file service hands
/// out to be called on arrives where it receives.
pub proof fn lemma_boot_pairs(
    k: &Kernel,
    old: &Kernel,
    images: Images,
    w: Wiring,
    kbd_irq: u32,
    nvme: Option<u32>,
    blk: ServiceState,
    fs: ServiceState,
    pong: ServiceState,
    ping: ServiceState,
)
    requires
        k.wired(old, w),
        boot_service(blk, images, w, kbd_irq, nvme, 1),
        boot_service(fs, images, w, kbd_irq, nvme, 2),
        boot_service(pong, images, w, kbd_irq, nvme, 3),
        boot_service(ping, images, w, kbd_irq, nvme, 4),
    ensures
        ping.spec.name@ == "ping"@ && ping.spec.image == images.ping,
        pong.spec.name@ == "pong"@ && pong.spec.image == images.pong,
        blk.spec.name@ == "blk"@ && blk.spec.image == images.blk,
        fs.spec.name@ == "fs"@ && fs.spec.image == images.fs,
        ({
            let a = ping.spec.grants@;
            let b = pong.spec.grants@;
            let c = fs.spec.grants@;
            let d = blk.spec.grants@.last();
            &&& a[0].object is Endpoint && a[0].object == b[0].object
            &&& a[1].object is Endpoint && a[1].object == b[1].object
            &&& a[0].object != a[1].object
            &&& a[0].rights == Rights(1) && b[0].rights == Rights(2)
            &&& a[1].rights == Rights(2) && b[1].rights == Rights(1)
            &&& c[0].object is Endpoint && c[0].object == d.object
            &&& c[0].rights == Rights(1) && d.rights == Rights(2)
            &&& c[2].rights == Rights(2) && c[3].rights == Rights(5)
            &&& c[2].object matches Object::Endpoint(e)
            &&& c[3].object matches Object::Endpoint(f)
            &&& k.eps.target(f) == e && k.eps.target(e) == f && e != f
        }),
{
    assert(0x01u32 | 0x04u32 == 0x05u32) by (bit_vector);
}

} // verus!
