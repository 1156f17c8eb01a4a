//! Tasks, endpoints, capabilities, system calls and services.
use k1k::kernel::bitmap::Bitmap;
use k1k::kernel::builtin::Images;
use k1k::kernel::dispatch::Action;
use k1k::kernel::ipc::{Endpoints, IpcError, QUEUE_LIMIT};
use k1k::kernel::irq::{Interrupt, IrqTable, Stage, Step, ISA_VECTOR_BASE, MSI_VECTOR_FIRST};
use k1k::kernel::loader::LoadError;
use k1k::kernel::message::Message;
use k1k::kernel::obj::{CapTable, Capability, Object, Rights, MAX_SLOTS};
use k1k::kernel::pmm::{init, plan, Entry, MemKind};
use k1k::kernel::sched::{Cpu, Scheduler, Switch, CRASHED, QUANTUM_TICKS};
use k1k::kernel::services::{
    backoff, Duty, Outcome, ServiceSpec, Supervisor, Verdict, MAX_SERVICES, POLL_MS,
};
use k1k::kernel::start::{boot_page, regions};
use k1k::kernel::state::Kernel;
use k1k::kernel::syscall::{
    user_range_ok, Received, EAGAIN, EFAULT, EINVAL, ENOMEM, EPERM, USER_TOP,
};
use k1k::kernel::task::{State, Task, NO_TASK, SHARED_BASE};
use k1k::rt::abi::{
    Cap, NO_CAP, RIGHT_DMA, RIGHT_GRANT, RIGHT_MAP_READ, RIGHT_MAP_WRITE, RIGHT_RECV, RIGHT_SEND,
    RIGHT_SPAWN,
};
use k1k::rt::calls;

fn cap(object: Object, rights: u32) -> Capability {
    Capability {
        object,
        rights: Rights(rights),
    }
}

fn frames(n: u64) -> (Bitmap, Vec<u64>) {
    let map = [Entry {
        base: 0,
        length: n * 4096,
        kind: MemKind::Usable,
    }];
    let p = plan(&map).unwrap();
    let mut bits = vec![0u64; p.words as usize];
    let bm = init(&map, &p, &mut bits);
    (bm, bits)
}

fn kernel(n: u64) -> (Kernel, Vec<u64>) {
    let (bm, bits) = frames(n);
    let k = Kernel::new(bm, &bits);
    (k, bits)
}

fn cpu(cpu_id: u32) -> Cpu {
    Cpu {
        cpu_id,
        current: NO_TASK,
        idle_task: NO_TASK,
        prev_pending: NO_TASK,
        switches: 0,
    }
}

fn give(k: &mut Kernel, task: u32, c: Capability) -> u64 {
    let i = k.sched.find(task);
    k.sched.tasks[i].caps.insert(c).unwrap() as u64
}

#[test]
fn rights_are_sets() {
    let a = Rights(RIGHT_SEND | RIGHT_GRANT);
    let b = Rights(RIGHT_SEND | RIGHT_RECV);
    assert_eq!(a.union(b), Rights(RIGHT_SEND | RIGHT_RECV | RIGHT_GRANT));
    assert_eq!(a.intersect(b), Rights(RIGHT_SEND));
    assert!(a.contains(Rights(RIGHT_SEND)));
    assert!(!a.contains(b));
    assert!(a.contains(Rights(0)));
}

#[test]
fn capability_tables() {
    let mut t = CapTable::new();
    let e = cap(Object::Endpoint(3), RIGHT_SEND | RIGHT_GRANT);
    let m = cap(Object::Memory(4), RIGHT_MAP_READ);
    assert_eq!(t.insert(e), Some(0));
    assert_eq!(t.insert(m), Some(1));
    assert_eq!(t.get(0), Some(e));
    assert_eq!(t.get(9), None);
    assert_eq!(t.lookup(0, Rights(RIGHT_SEND)), Some(e));
    assert_eq!(t.lookup(0, Rights(RIGHT_RECV)), None);
    // Only with GRANT, and never with more rights.
    assert_eq!(t.derive(1, Rights(u32::MAX)), None);
    assert_eq!(t.derive(0, Rights(RIGHT_SEND | RIGHT_RECV)), Some(cap(Object::Endpoint(3), RIGHT_SEND)));
    assert_eq!(t.remove(0), Some(e));
    assert_eq!(t.remove(0), None);
    assert_eq!(t.insert(m), Some(0));
    assert_eq!(e.endpoint(), Some(3));
    assert_eq!(e.memory(), None);
    assert_eq!(m.memory(), Some(4));
    for _ in 2..MAX_SLOTS {
        assert!(t.insert(e).is_some());
    }
    assert_eq!(t.insert(e), None);
}

#[test]
fn round_robin_over_two_threads() {
    let mut s = Scheduler::new();
    let mut c = cpu(0);
    let idle = s.register_idle_cpu(&mut c);
    assert_eq!((idle, c.current, c.idle_task), (0, 0, 0));
    assert_eq!(c.current_id(), 0);
    let a = s.spawn_kernel("a");
    let b = s.spawn_kernel("b");
    assert_eq!(s.task_count(), 3);
    assert_eq!(s.schedule(&mut c), Some(Switch { prev: idle, next: a }));
    s.finish_switch(&mut c);
    assert_eq!(s.schedule(&mut c), Some(Switch { prev: a, next: b }));
    // Until the switch has finished nobody may pick the old task.
    let i = s.find(a);
    assert_eq!(s.tasks[i].on_cpu, Some(0));
    let mut other = cpu(1);
    s.register_idle_cpu(&mut other);
    assert_eq!(s.schedule(&mut other), None);
    s.finish_switch(&mut c);
    assert_eq!(s.tasks[i].on_cpu, None);
    assert_eq!(s.schedule(&mut other), Some(Switch { prev: 3, next: a }));
    assert_eq!(s.tasks[i].on_cpu, Some(1));
    // Nothing else is ready: the current task goes on.
    assert_eq!(s.schedule(&mut c), None);
    assert_eq!(c.switches, 2);
}

#[test]
fn ticks_wake_sleepers_and_charge_the_current_task() {
    let mut s = Scheduler::new();
    let mut c = cpu(0);
    s.register_idle_cpu(&mut c);
    let a = s.spawn_kernel("a");
    s.schedule(&mut c);
    s.finish_switch(&mut c);
    s.sleep_ms(a, 100, 5);
    assert_eq!(s.schedule(&mut c), Some(Switch { prev: a, next: 0 }));
    s.finish_switch(&mut c);
    assert!(!s.on_tick(104, 0));
    assert!(s.on_tick(105, 0));
    assert_eq!(s.ready.len(), 1);
    s.schedule(&mut c);
    s.finish_switch(&mut c);
    let b = s.spawn_kernel("b");
    for t in 0..QUANTUM_TICKS - 1 {
        assert!(!s.on_tick(200 + t as u64, a));
    }
    assert!(s.on_tick(300, a));
    assert_eq!(s.schedule(&mut c), Some(Switch { prev: a, next: b }));
    // A sleep lasts at least one tick.
    s.sleep_ms(b, 10, 0);
    let i = s.find(b);
    assert_eq!(s.tasks[i].sleep_until, 11);
    s.wake(b);
    assert_eq!(s.tasks[i].state, State::Ready);
}

#[test]
fn death_wakes_the_supervisor() {
    let mut s = Scheduler::new();
    let mut c = cpu(0);
    s.register_idle_cpu(&mut c);
    let sup = s.spawn_kernel("supervisor");
    s.set_supervisor(sup);
    s.schedule(&mut c);
    s.finish_switch(&mut c);
    s.mark_blocked(sup);
    s.schedule(&mut c);
    s.finish_switch(&mut c);
    let a = s.spawn_kernel("a");
    s.schedule(&mut c);
    s.finish_switch(&mut c);
    assert_eq!(c.current, a);
    let r = s.on_user_fault(&mut c);
    assert_eq!(r, Some(Switch { prev: a, next: sup }));
    // The dead task is left alone while it is on its CPU.
    assert!(s.take_dead().is_none());
    s.finish_switch(&mut c);
    let d = s.take_dead().unwrap();
    assert_eq!((d.id, d.exit_code), (a, Some(CRASHED)));
    assert!(s.take_dead().is_none());
    let b = s.spawn_kernel("b");
    s.schedule(&mut c);
    s.finish_switch(&mut c);
    assert_eq!(s.thread_exit_hook(&mut c).unwrap().prev, b);
    s.finish_switch(&mut c);
    assert_eq!(s.take_dead().unwrap().exit_code, Some(0));
}

#[test]
fn reserved_ids_are_published_in_order() {
    let mut s = Scheduler::new();
    let a = s.reserve_task_id();
    let b = s.spawn_kernel("b");
    s.publish_task(Task::new_kernel(a, "a"), a);
    let ids: Vec<u32> = s.tasks.iter().map(|t| t.id).collect();
    assert_eq!(ids, [a, b]);
    assert_eq!(s.pick_next(), Some(b));
    assert_eq!(s.pick_next(), Some(a));
    assert_eq!(s.pick_next(), None);
}

#[test]
fn endpoints_queue_and_hand_over() {
    let mut s = Scheduler::new();
    let mut eps = Endpoints::new();
    let a = s.spawn_kernel("a");
    let lone = eps.create();
    let (x, y) = eps.new_pair();
    let msg = |w: u64| Message::new(7, [w, 0, 0, 0]);
    assert_eq!(eps.send(lone, msg(1), &mut s), Ok(()));
    assert_eq!(eps.send(lone, msg(2), &mut s), Ok(()));
    assert_eq!(eps.eps[lone as usize].recv(a, &mut s).unwrap().words[0], 1);
    assert_eq!(eps.eps[lone as usize].recv(a, &mut s).unwrap().words[0], 2);
    // A pair crosses over.
    assert_eq!(eps.send(x, msg(3), &mut s), Ok(()));
    assert_eq!(eps.eps[y as usize].queue.len(), 1);
    assert_eq!(eps.eps[x as usize].queue.len(), 0);
    // A receiver that waits gets the message directly.
    assert!(eps.eps[x as usize].recv(a, &mut s).is_none());
    assert_eq!(s.tasks[0].state, State::Blocked);
    assert_eq!(eps.send(y, msg(4), &mut s), Ok(()));
    assert_eq!(s.tasks[0].state, State::Ready);
    assert_eq!(s.take_inbox(a).unwrap().words[0], 4);
    assert_eq!(eps.eps[x as usize].queue.len(), 0);
    for i in 0..QUEUE_LIMIT {
        assert_eq!(eps.send(lone, msg(i as u64), &mut s), Ok(()));
    }
    assert_eq!(eps.send(lone, msg(0), &mut s), Err(IpcError::QueueFull));
}

#[test]
fn a_dead_receiver_loses_no_message() {
    let mut s = Scheduler::new();
    let mut eps = Endpoints::new();
    let a = s.spawn_kernel("a");
    let b = s.spawn_kernel("b");
    let e = eps.create();
    assert!(eps.eps[0].recv(a, &mut s).is_none());
    assert!(eps.eps[0].recv(b, &mut s).is_none());
    s.mark_dead(a, CRASHED);
    assert_eq!(eps.send(e, Message::new(9, [5, 0, 0, 0]), &mut s), Ok(()));
    assert_eq!(s.take_inbox(b).unwrap().words[0], 5);
    s.mark_dead(b, 0);
    assert!(eps.eps[0].recv(b, &mut s).is_none());
    s.mark_dead(b, 0);
    assert_eq!(eps.send(e, Message::new(9, [6, 0, 0, 0]), &mut s), Ok(()));
    assert_eq!(eps.eps[0].queue.len(), 1);
}

#[test]
fn user_ranges() {
    assert!(user_range_ok(0x40_0000, 4096));
    assert!(user_range_ok(USER_TOP - 32, 32));
    assert!(!user_range_ok(USER_TOP - 31, 32));
    assert!(!user_range_ok(u64::MAX, 32));
    assert!(!user_range_ok(0x40_0000, 4097));
}

#[test]
fn memory_travels_with_its_capability() {
    let (mut k, mut bits) = kernel(64);
    let a = k.sched.spawn_kernel("a");
    let b = k.sched.spawn_kernel("b");
    let free = k.bm.free;
    let (slot, id) = k.sys_mem_create(&mut bits, a, 4, false).unwrap();
    assert_eq!(slot, 0);
    assert_eq!(k.bm.free, free - 4);
    assert_eq!(k.sys_mem_create(&mut bits, a, 0, false), Err(EINVAL));
    assert_eq!(k.sys_mem_create(&mut bits, a, 1025, false), Err(EINVAL));
    assert_eq!(k.sys_mem_create(&mut bits, a, 65, true), Err(EINVAL));
    assert_eq!(k.sys_mem_create(&mut bits, a, 63, false), Err(ENOMEM));
    let e = k.eps.create();
    let sa = give(&mut k, a, cap(Object::Endpoint(e), RIGHT_SEND));
    give(&mut k, b, cap(Object::Endpoint(e), RIGHT_RECV));
    assert_eq!(k.sys_send(&bits, a, sa, 1, 2, 3), 0);
    assert_eq!(k.sys_send(&bits, b, 0, 1, 2, 3), EPERM);
    assert_eq!(k.sys_send_cap(&mut bits, a, sa, 0, RIGHT_MAP_READ as u64, 77), 0);
    assert_eq!(k.mem.objects[id as usize].as_ref().unwrap().refs, 2);
    // An endpoint without GRANT cannot be handed on.
    assert_eq!(k.sys_send_cap(&mut bits, a, sa, sa, u64::MAX, 0), EPERM);
    match k.recv_from(&mut bits, b, e) {
        Received::Got { sender, words } => {
            assert_eq!(sender, a);
            assert_eq!(words, [1, 2, 3, NO_CAP]);
        }
        Received::Wait => panic!(),
    }
    match k.recv_from(&mut bits, b, e) {
        Received::Got { sender, words } => {
            assert_eq!(sender, a);
            assert_eq!(words, [77, 0, 0, 1]);
        }
        Received::Wait => panic!(),
    }
    let i = k.sched.find(b);
    assert_eq!(k.sched.tasks[i].caps.get(1), Some(cap(Object::Memory(id), RIGHT_MAP_READ)));
    // The receiver may map it for reading only, at an address of its own.
    assert_eq!(k.sys_mem_map(&bits, b, 1, 1), Err(EPERM));
    let m = k.sys_mem_map(&bits, b, 1, 0).unwrap();
    assert_eq!((m.object, m.base, m.pages, m.writable), (id, SHARED_BASE, 4, false));
    assert_eq!(k.mem_mapped(&bits, b, m), SHARED_BASE as i64);
    assert_eq!(k.mem.objects[id as usize].as_ref().unwrap().refs, 3);
    let m2 = k.sys_mem_map(&bits, b, 1, 0).unwrap();
    assert!(m2.base >= SHARED_BASE + 4 * 4096);
    // It lives as long as somebody refers to it.
    assert!(k.cap_drop(&mut bits, a, slot));
    assert!(!k.cap_drop(&mut bits, a, slot));
    assert!(k.cap_drop(&mut bits, b, 1));
    assert_eq!(k.bm.free, free - 4);
    k.sched.mark_dead(b, 0);
    let d = k.reap(&mut bits).unwrap();
    assert_eq!((d.id, d.code, d.service), (b, 0, None));
    assert_eq!(k.bm.free, free);
    assert!(k.reap(&mut bits).is_none());
}

#[test]
fn contiguous_memory_knows_its_address() {
    let (mut k, mut bits) = kernel(64);
    let a = k.sched.spawn_kernel("a");
    let (slot, id) = k.sys_mem_create(&mut bits, a, 8, true).unwrap();
    let first = k.mem.objects[id as usize].as_ref().unwrap().object.frames[0];
    assert_eq!(k.sys_mem_phys(&bits, a, slot as u64), first as i64);
    let i = k.sched.find(a);
    assert_eq!(
        k.sched.tasks[i].caps.get(slot).unwrap().rights,
        Rights(RIGHT_MAP_READ | RIGHT_MAP_WRITE | RIGHT_GRANT | RIGHT_DMA)
    );
    let (plain, _) = k.sys_mem_create(&mut bits, a, 1, false).unwrap();
    assert_eq!(k.sys_mem_phys(&bits, a, plain as u64), EPERM);
}

#[test]
fn a_blocked_receiver_resumes_with_its_message() {
    let (mut k, mut bits) = kernel(64);
    let a = k.sched.spawn_kernel("a");
    let b = k.sched.spawn_kernel("b");
    assert_eq!(k.sys_ep_create(&bits, b), 0);
    let e = 0;
    give(&mut k, a, cap(Object::Endpoint(e), RIGHT_SEND));
    assert!(matches!(k.recv_from(&mut bits, b, e), Received::Wait));
    assert!(matches!(k.recv_resume(&mut bits, b, e), Received::Wait));
    assert_eq!(k.sys_send(&bits, a, 0, 11, 12, 13), 0);
    match k.recv_resume(&mut bits, b, e) {
        Received::Got { sender, words } => {
            assert_eq!((sender, words), (a, [11, 12, 13, NO_CAP]));
        }
        Received::Wait => panic!(),
    }
    for _ in 0..QUEUE_LIMIT {
        assert_eq!(k.sys_send(&bits, a, 0, 0, 0, 0), 0);
    }
    assert_eq!(k.sys_send(&bits, a, 0, 0, 0, 0), EAGAIN);
    // A full queue keeps no reference to what was attached.
    let (slot, id) = k.sys_mem_create(&mut bits, a, 1, false).unwrap();
    assert_eq!(k.sys_send_cap(&mut bits, a, 0, slot as u64, u64::MAX, 0), EAGAIN);
    assert_eq!(k.mem.objects[id as usize].as_ref().unwrap().refs, 1);
}

fn act(k: &mut Kernel, bits: &mut [u64], me: u32, c: calls::Call) -> Action {
    k.dispatch(bits, me, 1234, c.nr, c.a0, c.a1, c.a2, c.a3)
}

#[test]
fn system_calls_by_number() {
    let (mut k, mut bits) = kernel(64);
    let a = k.sched.spawn_kernel("a");
    let b = &mut bits;
    assert!(matches!(act(&mut k, b, a, calls::yield_now()), Action::Yield));
    assert!(matches!(act(&mut k, b, a, calls::exit(-3)), Action::Exit(-3)));
    assert!(matches!(act(&mut k, b, a, calls::sleep_ms(7)), Action::Sleep(7)));
    assert!(matches!(act(&mut k, b, a, calls::sleep_ms(100_000)), Action::Sleep(60_000)));
    assert!(matches!(
        act(&mut k, b, a, calls::log_bytes(0x40_0000, 12)),
        Action::Log { ptr: 0x40_0000, len: 12 }
    ));
    assert!(matches!(act(&mut k, b, a, calls::log_bytes(USER_TOP, 12)), Action::Return(EFAULT)));
    match act(&mut k, b, a, calls::info(0x40_0000)) {
        Action::Store { ptr, words, count, value } => {
            assert_eq!((ptr, count, value), (0x40_0000, 2, 0));
            assert_eq!(words[..2], [1234, a as u64]);
        }
        _ => panic!(),
    }
    assert!(matches!(act(&mut k, b, a, calls::ep_create()), Action::Return(0)));
    assert!(matches!(
        act(&mut k, b, a, calls::send(Cap(0), 1, 2, 3)),
        Action::Return(0)
    ));
    match act(&mut k, b, a, calls::recv(Cap(0), 0x40_0000)) {
        Action::Store { ptr, words, count, value } => {
            assert_eq!((ptr, count, value), (0x40_0000, 4, a as i64));
            assert_eq!(words, [1, 2, 3, NO_CAP]);
        }
        _ => panic!(),
    }
    assert!(matches!(
        act(&mut k, b, a, calls::recv(Cap(0), USER_TOP)),
        Action::Return(EFAULT)
    ));
    assert!(matches!(
        act(&mut k, b, a, calls::recv(Cap(0), 0x40_0000)),
        Action::Wait { ep: 0, ptr: 0x40_0000 }
    ));
    assert!(matches!(act(&mut k, b, a, calls::cap_drop(Cap(200))), Action::Return(EINVAL)));
    assert!(matches!(k.dispatch(b, a, 0, 99, 0, 0, 0, 0), Action::Unknown(99)));
}

#[test]
fn drivers_reach_only_what_they_were_given() {
    let (mut k, mut bits) = kernel(64);
    let a = k.sched.spawn_kernel("a");
    give(&mut k, a, cap(Object::Irq(35), RIGHT_RECV));
    give(&mut k, a, cap(Object::Port { base: 0x60, len: 5 }, RIGHT_MAP_READ));
    give(&mut k, a, cap(Object::Device(2), RIGHT_MAP_READ | RIGHT_MAP_WRITE));
    assert_eq!(k.sys_ep_create(&bits, a), 3);
    let b = &mut bits;
    assert!(matches!(
        act(&mut k, b, a, calls::irq_bind(Cap(0), Cap(3))),
        Action::Bind { irq: 35, ep: 0 }
    ));
    assert!(matches!(act(&mut k, b, a, calls::irq_bind(Cap(3), Cap(3))), Action::Return(EPERM)));
    assert!(matches!(act(&mut k, b, a, calls::irq_ack(Cap(0))), Action::Ack(35)));
    assert!(matches!(
        act(&mut k, b, a, calls::port_in(Cap(1), 4, 1)),
        Action::PortIn { port: 0x64, width: 1 }
    ));
    assert!(matches!(act(&mut k, b, a, calls::port_in(Cap(1), 5, 1)), Action::Return(EINVAL)));
    assert!(matches!(act(&mut k, b, a, calls::port_in(Cap(1), 4, 2)), Action::Return(EINVAL)));
    assert!(matches!(act(&mut k, b, a, calls::port_in(Cap(0), 0, 1)), Action::Return(EPERM)));
    assert!(matches!(
        act(&mut k, b, a, calls::dev_info(Cap(2), 0x40_0000)),
        Action::Describe { device: 2, ptr: 0x40_0000 }
    ));
    assert!(matches!(
        act(&mut k, b, a, calls::dev_map(Cap(2), 0)),
        Action::MapBar { device: 2, bar: 0 }
    ));
    assert!(matches!(act(&mut k, b, a, calls::dev_irq(Cap(2))), Action::NewIrq(2)));
}

#[test]
fn spawning_hands_on_no_more_than_the_spawner_has() {
    let (mut k, mut bits) = kernel(64);
    let a = k.sched.spawn_kernel("fs");
    give(&mut k, a, cap(Object::Control, RIGHT_SPAWN | RIGHT_GRANT));
    let (img, id) = k.sys_mem_create(&mut bits, a, 2, false).unwrap();
    k.eps.create();
    give(&mut k, a, cap(Object::Endpoint(0), RIGHT_SEND | RIGHT_GRANT));
    give(&mut k, a, cap(Object::Endpoint(0), RIGHT_RECV));
    let head = [0u64, img as u64, 8192, 0x40_0000, 5, 1, 0x40_1000, 9];
    let r = k.spawn_request(&bits, a, &head, &[2, u32::MAX as u64]).ok().unwrap();
    assert_eq!((r.image, r.size, r.name_len, r.arg_len), (id, 8192, 5, 9));
    assert_eq!(r.grants, [cap(Object::Endpoint(0), RIGHT_SEND | RIGHT_GRANT)]);
    let r = k.spawn_request(&bits, a, &head, &[2, RIGHT_SEND as u64]).ok().unwrap();
    assert_eq!(r.grants, [cap(Object::Endpoint(0), RIGHT_SEND)]);
    // The receiving half carries no GRANT.
    assert_eq!(k.spawn_request(&bits, a, &head, &[3, u32::MAX as u64]).err(), Some(EPERM));
    // Larger than the memory object.
    let head = [0u64, img as u64, 8193, 0x40_0000, 5, 0, 0, 0];
    assert_eq!(k.spawn_request(&bits, a, &head, &[]).err(), Some(EINVAL));
    // Without the authority.
    let head = [2u64, img as u64, 8192, 0x40_0000, 5, 0, 0, 0];
    assert_eq!(k.spawn_request(&bits, a, &head, &[]).err(), Some(EPERM));
}

static IMG: [u8; 4] = [0x7F, b'E', b'L', b'F'];

fn spec(name: &'static str, grants: Vec<Capability>) -> ServiceSpec {
    ServiceSpec {
        name,
        image: &IMG,
        grants,
        dynamic: false,
        args: Vec::new(),
    }
}

#[test]
fn a_crashed_service_comes_back_with_the_same_authority() {
    let (mut k, mut bits) = kernel(64);
    let e = k.eps.create();
    let grants = vec![cap(Object::Endpoint(e), RIGHT_RECV)];
    let i = k.register(&bits, spec("pong", grants.clone())).unwrap();
    let w = k.spawn(&bits, i, 0x7fff_1000_0000).unwrap();
    let id = w.id;
    assert_eq!(w.image, Err(LoadError::BadMagic));
    assert!(w.segments.is_empty());
    assert_eq!(w.regions, regions(0x7fff_1000_0000));
    assert_eq!(w.page, boot_page(id, 0x7fff_1000_0000, b""));
    k.spawn_finish(&bits, i, id, 0x40_1000);
    let p = k.sched.find(id);
    assert_eq!(k.sched.tasks[p].caps.get(0), Some(grants[0]));
    assert_eq!(k.sched.tasks[p].service, Some(i));
    assert!(k.sched.tasks[p].is_user());
    // It crashes three times without a delay, then backs off.
    let mut delays = Vec::new();
    let mut last = id;
    for _ in 0..6 {
        k.sched.mark_dead(last, CRASHED);
        let d = k.reap(&mut bits).unwrap();
        match k.supervise(&bits, &d) {
            Verdict::Restart { service, delay_ms, .. } => {
                assert_eq!(service, i);
                delays.push(delay_ms);
            }
            _ => panic!(),
        }
        let next = k.spawn(&bits, i, 0x7fff_1000_0000).unwrap().id;
        k.spawn_finish(&bits, i, next, 0x40_1000);
        assert_ne!(next, last);
        last = next;
        let p = k.sched.find(last);
        assert_eq!(k.sched.tasks[p].caps.get(0), Some(grants[0]));
    }
    assert_eq!(delays, (1..7).map(backoff).collect::<Vec<u64>>());
    assert_eq!(k.restarts_of("pong"), 6);
    assert_eq!(k.restarts_of("nobody"), 0);
    // A clean exit is final.
    k.sched.mark_dead(last, 0);
    let d = k.reap(&mut bits).unwrap();
    assert!(matches!(k.supervise(&bits, &d), Verdict::Finished { service: 0 }));
    // A thread is nobody's service.
    let t = k.sched.spawn_kernel("t");
    k.sched.mark_dead(t, 1);
    let d = k.reap(&mut bits).unwrap();
    assert!(matches!(k.supervise(&bits, &d), Verdict::Thread));
    assert!(k.spawn(&bits, 9, 0x7fff_1000_0000).is_none());
}

#[test]
fn backoff_grows_to_its_limit() {
    assert_eq!(backoff(1), 0);
    assert_eq!(backoff(3), 0);
    assert!(backoff(4) > 0);
    assert!(backoff(5) >= backoff(4));
    assert_eq!(backoff(100), 3000);
    assert_eq!(backoff(u32::MAX), 3000);
}

#[test]
fn the_service_table_has_an_end() {
    let (mut k, bits) = kernel(64);
    for i in 0..MAX_SERVICES {
        assert_eq!(k.spawn_from_image(&bits, "s", &IMG, Vec::new(), vec![1]), Some(i));
    }
    assert_eq!(k.spawn_from_image(&bits, "s", &IMG, Vec::new(), Vec::new()), None);
    assert!(k.services[0].spec.dynamic);
    assert_eq!(k.services[0].spec.args, [1]);
}

#[test]
fn boot_services_and_their_wiring() {
    let (mut k, bits) = kernel(64);
    let images = Images { kbd: &IMG, blk: &IMG, fs: &IMG, pong: &IMG, ping: &IMG };
    let w = k.init_builtin(&bits, images, 35, Some(4));
    let names: Vec<&str> = k.services.iter().map(|s| s.spec.name).collect();
    assert_eq!(names, ["kbd", "blk", "fs", "pong", "ping"]);
    assert_eq!(
        k.services[0].spec.grants,
        [
            cap(Object::Irq(35), RIGHT_RECV),
            cap(Object::Port { base: 0x60, len: 5 }, RIGHT_MAP_READ)
        ]
    );
    assert_eq!(
        k.services[2].spec.grants,
        [
            cap(Object::Endpoint(w.blk_req), RIGHT_SEND),
            cap(Object::Control, RIGHT_SPAWN | RIGHT_GRANT),
            cap(Object::Endpoint(w.fs_serve), RIGHT_RECV),
            cap(Object::Endpoint(w.fs_call), RIGHT_SEND | RIGHT_GRANT)
        ]
    );
    // What is sent on the calling half arrives at the serving half.
    assert_eq!(k.eps.eps[w.fs_call as usize].peer, Some(w.fs_serve));
    let (mut k, bits) = kernel(64);
    let images = Images { kbd: &IMG, blk: &IMG, fs: &IMG, pong: &IMG, ping: &IMG };
    k.init_builtin(&bits, images, 35, None);
    assert_eq!(k.services[1].spec.grants.len(), 1);
}

/// Handle an interrupt; returns what was done at the controllers, and how many
/// messages the first endpoint held at each step.
fn interrupt(k: &mut Kernel, bits: &[u64], t: &mut IrqTable, v: u8) -> (Vec<Step>, Vec<usize>) {
    let mut i = Interrupt::new(v);
    let (mut steps, mut held) = (Vec::new(), Vec::new());
    loop {
        let s = k.on_vector(bits, t, &mut i);
        steps.push(s);
        held.push(k.eps.eps[0].queue.len());
        if s == Step::Return {
            assert_eq!(i.stage, Stage::Handled);
            return (steps, held);
        }
    }
}

#[test]
fn interrupts_become_messages() {
    let (mut k, mut bits) = kernel(64);
    let mut t = IrqTable::new();
    let v = t.isa(1, 1, false);
    assert_eq!(v, ISA_VECTOR_BASE + 1);
    let m = t.reserve_msi().unwrap();
    assert_eq!(m, MSI_VECTOR_FIRST);
    t.msix(m);
    assert_eq!(t.reserve_msi(), Some(MSI_VECTOR_FIRST + 1));
    let e = k.eps.create();
    t.bind(v, e);
    // It is acknowledged before the message is sent.
    let (steps, held) = interrupt(&mut k, &bits, &mut t, v);
    assert_eq!(steps, [Step::Acknowledge, Step::Return]);
    assert_eq!(held, [0, 1]);
    assert_eq!(k.eps.eps[0].queue[0].words[0], v as u64);
    // A level interrupt is masked until it is acknowledged.
    let l = t.isa(9, 20, true);
    t.bind(l, e);
    let (steps, held) = interrupt(&mut k, &bits, &mut t, l);
    assert_eq!(steps, [Step::Mask(20), Step::Acknowledge, Step::Return]);
    assert_eq!(held, [1, 1, 2]);
    assert_eq!(t.ack(l), Some(20));
    assert_eq!(t.ack(v), None);
    // What does not fit the queue is counted.
    for _ in 0..QUEUE_LIMIT {
        interrupt(&mut k, &bits, &mut t, v);
    }
    // A vector that is nobody's is only acknowledged.
    assert_eq!(
        interrupt(&mut k, &bits, &mut t, 200),
        (vec![Step::Acknowledge, Step::Return], vec![QUEUE_LIMIT, QUEUE_LIMIT])
    );
    assert!(t.slots[v as usize].unwrap().dropped > 0);
    assert_eq!(t.slots[v as usize].unwrap().count, 1 + QUEUE_LIMIT as u64);
    let a = k.sched.spawn_kernel("a");
    let _ = k.recv_from(&mut bits, a, e);
}

#[test]
fn message_vectors_run_out() {
    let mut t = IrqTable::new();
    let mut n = 0;
    while let Some(v) = t.reserve_msi() {
        t.msix(v);
        n += 1;
        assert!(n <= 64);
    }
    assert_eq!(n, 64);
}

#[test]
fn a_driver_gets_the_interrupt_of_its_device() {
    let (mut k, bits) = kernel(64);
    let mut t = IrqTable::new();
    let a = k.sched.spawn_kernel("blk");
    let v = t.reserve_msi().unwrap();
    assert_eq!(k.sys_dev_irq(&bits, &mut t, a, v), 0);
    let i = k.sched.find(a);
    let want = cap(Object::Irq(v as u32), RIGHT_RECV | RIGHT_GRANT);
    assert_eq!(k.sched.tasks[i].caps.get(0), Some(want));
    let made = t.slots[v as usize].unwrap();
    assert_eq!((made.vector, made.gsi, made.level, made.endpoint), (v, None, false, None));
    // A full table holds no more.
    for _ in 1..MAX_SLOTS {
        give(&mut k, a, want);
    }
    let w = t.reserve_msi().unwrap();
    assert_eq!(k.sys_dev_irq(&bits, &mut t, a, w), EINVAL);
}

#[test]
fn the_supervisor_restarts_after_the_wait() {
    let (mut s, first) = Supervisor::new();
    assert_eq!(first, Duty::Reap);
    assert_eq!(s.step(Outcome::Reaped(None)), Duty::Sleep(POLL_MS));
    assert_eq!(s.step(Outcome::Slept), Duty::Reap);
    let soon = Verdict::Restart { service: 3, restarts: 1, delay_ms: 0 };
    assert_eq!(s.step(Outcome::Reaped(Some(soon))), Duty::Start(3));
    assert_eq!(s.step(Outcome::Started), Duty::Reap);
    let later = Verdict::Restart { service: 4, restarts: 5, delay_ms: 400 };
    assert_eq!(s.step(Outcome::Reaped(Some(later))), Duty::Sleep(400));
    assert_eq!(s.step(Outcome::Slept), Duty::Start(4));
    assert_eq!(s.step(Outcome::Started), Duty::Reap);
    assert_eq!(s.step(Outcome::Reaped(Some(Verdict::Thread))), Duty::Reap);
    let clean = Verdict::Finished { service: 4 };
    assert_eq!(s.step(Outcome::Reaped(Some(clean))), Duty::Reap);
}
