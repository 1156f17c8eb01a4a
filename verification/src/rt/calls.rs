//! System calls as a task makes them.
use vstd::prelude::*;
use vstd::slice::slice_subrange;
use vstd::string::*;

use crate::rt::abi;
use crate::rt::abi::{Cap, Error};

verus! {

pub const SYS_LOG: u64 = 0;

pub const SYS_EXIT: u64 = 1;

pub const SYS_YIELD: u64 = 2;

pub const SYS_SLEEP: u64 = 3;

pub const SYS_SEND: u64 = 4;

pub const SYS_RECV: u64 = 5;

pub const SYS_INFO: u64 = 6;

pub const SYS_SEND_CAP: u64 = 7;

pub const SYS_CAP_DROP: u64 = 8;

pub const SYS_MEM_CREATE: u64 = 9;

pub const SYS_MEM_MAP: u64 = 10;

pub const SYS_EP_CREATE: u64 = 11;

pub const SYS_MEM_CREATE_DMA: u64 = 12;

pub const SYS_MEM_PHYS: u64 = 13;

pub const SYS_DEV_INFO: u64 = 14;

pub const SYS_DEV_MAP: u64 = 15;

pub const SYS_SPAWN: u64 = 16;

pub const SYS_IRQ_BIND: u64 = 17;

pub const SYS_IRQ_ACK: u64 = 18;

pub const SYS_DEV_IRQ: u64 = 19;

pub const SYS_PORT_IN: u64 = 20;

pub const SYS_PORT_OUT: u64 = 21;

/// `spawn` with a descriptor: image, name, capabilities and arguments.
pub const SYS_SPAWN_DESC: u64 = 22;

/// Maximum capabilities one `spawn` can hand over.
pub const MAX_SPAWN_GRANTS: usize = 8;

/// Maximum launch-argument blob a `spawn` can attach.
pub const MAX_SPAWN_ARGS: usize = 1024;

/// A system call: its number and its arguments.
#[derive(Clone, Copy, Debug, PartialEq, Eq, Structural)]
pub struct Call {
    pub nr: u64,
    pub a0: u64,
    pub a1: u64,
    pub a2: u64,
    pub a3: u64,
}

/// Log the text at `ptr`.
pub fn log_bytes(ptr: u64, len: u64) -> (r: Call)
    ensures
        r == (Call { nr: SYS_LOG, a0: ptr, a1: len, a2: 0, a3: 0 }),
{
    Call { nr: SYS_LOG, a0: ptr, a1: len, a2: 0, a3: 0 }
}

/// End the calling task.
pub fn exit(code: i64) -> (r: Call)
    ensures
        r.nr == SYS_EXIT,
        r.a0 as i64 == code,
        r.a1 == 0 && r.a2 == 0 && r.a3 == 0,
{
    let c: u64 = code as u64;
    assert((code as u64) as i64 == code) by (bit_vector);
    Call { nr: SYS_EXIT, a0: c, a1: 0, a2: 0, a3: 0 }
}

/// Let another task run.
pub fn yield_now() -> (r: Call)
    ensures
        r == (Call { nr: SYS_YIELD, a0: 0, a1: 0, a2: 0, a3: 0 }),
{
    Call { nr: SYS_YIELD, a0: 0, a1: 0, a2: 0, a3: 0 }
}

/// Sleep; the kernel caps the time at a minute.
pub fn sleep_ms(ms: u64) -> (r: Call)
    ensures
        r == (Call { nr: SYS_SLEEP, a0: ms, a1: 0, a2: 0, a3: 0 }),
{
    Call { nr: SYS_SLEEP, a0: ms, a1: 0, a2: 0, a3: 0 }
}

/// Send three words on an endpoint.
pub fn send(cap: Cap, w0: u64, w1: u64, w2: u64) -> (r: Call)
    ensures
        r == (Call { nr: SYS_SEND, a0: cap.0 as u64, a1: w0, a2: w1, a3: w2 }),
{
    Call { nr: SYS_SEND, a0: cap.0 as u64, a1: w0, a2: w1, a3: w2 }
}

/// Send `w0` together with a copy of `what`, restricted to `rights`. Requires
/// `GRANT` on `what`.
pub fn send_cap(ep: Cap, what: Cap, rights: u32, w0: u64) -> (r: Call)
    ensures
        r == (Call { nr: SYS_SEND_CAP, a0: ep.0 as u64, a1: what.0 as u64, a2: rights as u64, a3: w0 }),
{
    Call { nr: SYS_SEND_CAP, a0: ep.0 as u64, a1: what.0 as u64, a2: rights as u64, a3: w0 }
}

/// Receive a message into the four words at `buf`.
pub fn recv(cap: Cap, buf: u64) -> (r: Call)
    ensures
        r == (Call { nr: SYS_RECV, a0: cap.0 as u64, a1: buf, a2: 0, a3: 0 }),
{
    Call { nr: SYS_RECV, a0: cap.0 as u64, a1: buf, a2: 0, a3: 0 }
}

/// Give up a capability.
pub fn cap_drop(cap: Cap) -> (r: Call)
    ensures
        r == (Call { nr: SYS_CAP_DROP, a0: cap.0 as u64, a1: 0, a2: 0, a3: 0 }),
{
    Call { nr: SYS_CAP_DROP, a0: cap.0 as u64, a1: 0, a2: 0, a3: 0 }
}

/// Allocate `pages` zeroed pages as a shareable memory object.
pub fn mem_create(pages: usize) -> (r: Call)
    ensures
        r == (Call { nr: SYS_MEM_CREATE, a0: pages as u64, a1: 0, a2: 0, a3: 0 }),
{
    Call { nr: SYS_MEM_CREATE, a0: pages as u64, a1: 0, a2: 0, a3: 0 }
}

/// Map a memory object into our address space.
pub fn mem_map(cap: Cap, writable: bool) -> (r: Call)
    ensures
        r == (Call {
            nr: SYS_MEM_MAP,
            a0: cap.0 as u64,
            a1: if writable {
                1
            } else {
                0
            },
            a2: 0,
            a3: 0,
        }),
{
    let w: u64 = if writable {
        1
    } else {
        0
    };
    Call { nr: SYS_MEM_MAP, a0: cap.0 as u64, a1: w, a2: 0, a3: 0 }
}

/// Create an endpoint we own (SEND, RECV, GRANT).
pub fn ep_create() -> (r: Call)
    ensures
        r == (Call { nr: SYS_EP_CREATE, a0: 0, a1: 0, a2: 0, a3: 0 }),
{
    Call { nr: SYS_EP_CREATE, a0: 0, a1: 0, a2: 0, a3: 0 }
}

/// Allocate physically contiguous zeroed pages suitable for DMA.
pub fn mem_create_dma(pages: usize) -> (r: Call)
    ensures
        r == (Call { nr: SYS_MEM_CREATE_DMA, a0: pages as u64, a1: 0, a2: 0, a3: 0 }),
{
    Call { nr: SYS_MEM_CREATE_DMA, a0: pages as u64, a1: 0, a2: 0, a3: 0 }
}

/// Physical address of a DMA memory object.
pub fn mem_phys(cap: Cap) -> (r: Call)
    ensures
        r == (Call { nr: SYS_MEM_PHYS, a0: cap.0 as u64, a1: 0, a2: 0, a3: 0 }),
{
    Call { nr: SYS_MEM_PHYS, a0: cap.0 as u64, a1: 0, a2: 0, a3: 0 }
}

/// Describe a PCI device in the fourteen words at `buf`.
pub fn dev_info(cap: Cap, buf: u64) -> (r: Call)
    ensures
        r == (Call { nr: SYS_DEV_INFO, a0: cap.0 as u64, a1: buf, a2: 0, a3: 0 }),
{
    Call { nr: SYS_DEV_INFO, a0: cap.0 as u64, a1: buf, a2: 0, a3: 0 }
}

/// Map a device's memory BAR (uncached).
pub fn dev_map(cap: Cap, bar: usize) -> (r: Call)
    ensures
        r == (Call { nr: SYS_DEV_MAP, a0: cap.0 as u64, a1: bar as u64, a2: 0, a3: 0 }),
{
    Call { nr: SYS_DEV_MAP, a0: cap.0 as u64, a1: bar as u64, a2: 0, a3: 0 }
}

/// Route an interrupt object's events to `ep` as messages `[vector, count]`.
pub fn irq_bind(irq: Cap, ep: Cap) -> (r: Call)
    ensures
        r == (Call { nr: SYS_IRQ_BIND, a0: irq.0 as u64, a1: ep.0 as u64, a2: 0, a3: 0 }),
{
    Call { nr: SYS_IRQ_BIND, a0: irq.0 as u64, a1: ep.0 as u64, a2: 0, a3: 0 }
}

/// Re-arm a level-triggered interrupt after servicing the device.
pub fn irq_ack(irq: Cap) -> (r: Call)
    ensures
        r == (Call { nr: SYS_IRQ_ACK, a0: irq.0 as u64, a1: 0, a2: 0, a3: 0 }),
{
    Call { nr: SYS_IRQ_ACK, a0: irq.0 as u64, a1: 0, a2: 0, a3: 0 }
}

/// Obtain an interrupt object (MSI-X entry 0) for a device we hold.
pub fn dev_irq(dev: Cap) -> (r: Call)
    ensures
        r == (Call { nr: SYS_DEV_IRQ, a0: dev.0 as u64, a1: 0, a2: 0, a3: 0 }),
{
    Call { nr: SYS_DEV_IRQ, a0: dev.0 as u64, a1: 0, a2: 0, a3: 0 }
}

/// Read `width` (1, 2 or 4) bytes from port `offset` within a port capability.
pub fn port_in(ports: Cap, offset: u16, width: u8) -> (r: Call)
    ensures
        r == (Call { nr: SYS_PORT_IN, a0: ports.0 as u64, a1: offset as u64, a2: width as u64, a3: 0 }),
{
    Call { nr: SYS_PORT_IN, a0: ports.0 as u64, a1: offset as u64, a2: width as u64, a3: 0 }
}

/// Write `width` (1, 2 or 4) bytes to port `offset` within a port capability.
pub fn port_out(ports: Cap, offset: u16, width: u8, value: u32) -> (r: Call)
    ensures
        r == (Call { nr: SYS_PORT_OUT, a0: ports.0 as u64, a1: offset as u64, a2: width as u64, a3: value as u64 }),
{
    Call { nr: SYS_PORT_OUT, a0: ports.0 as u64, a1: offset as u64, a2: width as u64, a3: value as u64 }
}

/// Store the uptime and the task id in the two words at `buf`.
pub fn info(buf: u64) -> (r: Call)
    ensures
        r == (Call { nr: SYS_INFO, a0: buf, a1: 0, a2: 0, a3: 0 }),
{
    Call { nr: SYS_INFO, a0: buf, a1: 0, a2: 0, a3: 0 }
}

/// Start a service from the descriptor at `desc`.
pub fn spawn_call(desc: u64) -> (r: Call)
    ensures
        r == (Call { nr: SYS_SPAWN_DESC, a0: desc, a1: 0, a2: 0, a3: 0 }),
{
    Call { nr: SYS_SPAWN_DESC, a0: desc, a1: 0, a2: 0, a3: 0 }
}

/// A slot that a call returned.
pub fn slot(v: i64) -> (r: Result<Cap, Error>)
    ensures
        r is Err <==> v < 0,
        v >= 0 ==> r == Ok::<Cap, Error>(Cap(abi::low32(v as u64))),
        r matches Err(e) ==> (e != Error::Unknown ==> e.raw() == v) && (e == Error::Unknown <==> v < -6),
{
    match abi::check(v) {
        Ok(n) => Ok(Cap((n % 0x1_0000_0000) as u32)),
        Err(e) => Err(e),
    }
}

/// What the kernel says of a task.
#[derive(Clone, Copy, Debug, PartialEq, Eq, Structural)]
pub struct Info {
    pub uptime_ms: u64,
    pub task_id: u32,
}

impl Info {
    pub fn decode(words: [u64; 2]) -> (r: Info)
        ensures
            r.uptime_ms == words@[0],
            r.task_id == abi::low32(words@[1]),
    {
        Info { uptime_ms: words[0], task_id: (words[1] % 0x1_0000_0000) as u32 }
    }
}

impl Default for Info {
    fn default() -> (r: Self)
        ensures
            r == (Info { uptime_ms: 0, task_id: 0 }),
    {
        Info { uptime_ms: 0, task_id: 0 }
    }
}

#[derive(Clone, Copy, Debug, PartialEq, Eq, Structural)]
pub struct Bar {
    pub base: u64,
    pub size: u64,
    pub io: bool,
}

impl Default for Bar {
    /// No window.
    fn default() -> (r: Self)
        ensures
            r == (Bar { base: 0, size: 0, io: false }),
    {
        Bar { base: 0, size: 0, io: false }
    }
}

/// A PCI device as its driver sees it.
#[derive(Clone, Copy, Debug)]
pub struct DevInfo {
    pub vendor: u16,
    pub device: u16,
    pub class: u8,
    pub subclass: u8,
    pub bus: u8,
    pub slot: u8,
    pub func: u8,
    pub bars: [Bar; 6],
}

impl Default for DevInfo {
    /// A device of zeroes without windows.
    fn default() -> (r: Self)
        ensures
            r.vendor == 0,
            r.device == 0,
            r.class == 0,
            r.subclass == 0,
            r.bus == 0,
            r.slot == 0,
            r.func == 0,
            r.bars@ == Seq::new(6, |i: int| Bar { base: 0, size: 0, io: false }),
    {
        let none: Bar = Bar { base: 0, size: 0, io: false };
        let bars: [Bar; 6] = [none, none, none, none, none, none];
        assert(bars@ =~= Seq::new(6, |i: int| Bar { base: 0, size: 0, io: false }));
        DevInfo { vendor: 0, device: 0, class: 0, subclass: 0, bus: 0, slot: 0, func: 0, bars }
    }
}

/// Bits of `w` from `at` on, `n` values wide.
pub open spec fn field(w: u64, at: int, n: int) -> int {
    (w as int / at) % n
}

/// A window in two words: its base, and its size with the top bit set for I/O.
pub open spec fn bar_of(base: u64, size: u64) -> Bar {
    Bar { base, size: (size % 0x8000_0000_0000_0000) as u64, io: size >= 0x8000_0000_0000_0000 }
}

impl DevInfo {
    /// What fourteen words say of a device: who it is, where it is, and its six
    /// windows.
    pub open spec fn says(self, w: Seq<u64>) -> bool {
        &&& self.vendor == field(w[0], 1, 0x1_0000)
        &&& self.device == field(w[0], 0x1_0000, 0x1_0000)
        &&& self.class == field(w[0], 0x1_0000_0000, 0x100)
        &&& self.subclass == field(w[0], 0x100_0000_0000, 0x100)
        &&& self.bus == field(w[1], 0x1_0000, 0x100)
        &&& self.slot == field(w[1], 0x100, 0x100)
        &&& self.func == field(w[1], 1, 0x100)
        &&& forall|i: int| 0 <= i < 6 ==> #[trigger] self.bars@[i] == bar_of(w[2 + 2 * i], w[3 + 2 * i])
    }

    pub fn decode(w: &[u64; 14]) -> (r: DevInfo)
        ensures
            r.says(w@),
    {
        let none: Bar = Bar { base: 0, size: 0, io: false };
        let mut bars: [Bar; 6] = [none, none, none, none, none, none];
        let mut i: usize = 0;
        while i < 6
            invariant
                i <= 6,
                forall|k: int| 0 <= k < i ==> #[trigger] bars@[k] == bar_of(w@[2 + 2 * k], w@[3 + 2 * k]),
            decreases 6 - i,
        {
            let size: u64 = w[3 + 2 * i];
            bars[i] = Bar {
                base: w[2 + 2 * i],
                size: size % 0x8000_0000_0000_0000,
                io: size >= 0x8000_0000_0000_0000,
            };
            i = i + 1;
        }
        DevInfo {
            vendor: (w[0] % 0x1_0000) as u16,
            device: (w[0] / 0x1_0000 % 0x1_0000) as u16,
            class: (w[0] / 0x1_0000_0000 % 0x100) as u8,
            subclass: (w[0] / 0x100_0000_0000 % 0x100) as u8,
            bus: (w[1] / 0x1_0000 % 0x100) as u8,
            slot: (w[1] / 0x100 % 0x100) as u8,
            func: (w[1] % 0x100) as u8,
            bars,
        }
    }
}

/// A capability to hand a service being spawned, with the rights it may keep.
#[derive(Clone, Copy, Debug, PartialEq, Eq, Structural)]
pub struct Grant {
    pub cap: Cap,
    pub rights: u32,
}

impl Grant {
    /// Hand `cap` over in full, minus the rights the spawner lacks anyway.
    pub fn full(cap: Cap) -> (r: Self)
        ensures
            r == (Grant { cap, rights: u32::MAX }),
    {
        Grant { cap, rights: u32::MAX }
    }

    /// Hand `cap` over with exactly these rights.
    pub fn with(cap: Cap, rights: u32) -> (r: Self)
        ensures
            r == (Grant { cap, rights }),
    {
        Grant { cap, rights }
    }
}

/// Bytes in memory, by address and length.
#[derive(Clone, Copy, Debug, PartialEq, Eq, Structural)]
pub struct Span {
    pub ptr: u64,
    pub len: u64,
}

/// A spawn descriptor: eight words, then the slot and the rights of each
/// capability handed over.
pub open spec fn is_descriptor(
    d: Seq<u64>,
    control: Cap,
    image: Cap,
    size: u64,
    name: Span,
    grants: Seq<Grant>,
    args: Span,
) -> bool {
    &&& d.len() == 24
    &&& d[0] == control.0
    &&& d[1] == image.0
    &&& d[2] == size
    &&& d[3] == name.ptr
    &&& d[4] == if name.len < 32 {
        name.len
    } else {
        32
    }
    &&& d[5] == grants.len()
    &&& d[6] == args.ptr
    &&& d[7] == args.len
    &&& forall|i: int|
        0 <= i < grants.len() ==> d[8 + 2 * i] == (#[trigger] grants[i]).cap.0 && d[9 + 2 * i]
            == grants[i].rights
    &&& forall|j: int| 8 + 2 * grants.len() <= j < 24 ==> #[trigger] d[j] == 0
}

/// The descriptor that starts a service with capabilities and launch arguments.
///
/// `grants` become the new task's capability slots 0..n in order, each reduced
/// to the rights given here (never more than the spawner holds). `args` is a
/// `key=value` blob the service reads with `arg`. Names are cut after 32 bytes.
pub fn spawn_with(
    control: Cap,
    image: Cap,
    size: u64,
    name: Span,
    grants: &[Grant],
    args: Span,
) -> (r: Result<[u64; 24], Error>)
    ensures
        grants@.len() > MAX_SPAWN_GRANTS || args.len > MAX_SPAWN_ARGS ==> r is Err && r->Err_0 == Error::Inval,
        grants@.len() <= MAX_SPAWN_GRANTS && args.len <= MAX_SPAWN_ARGS ==> (r matches Ok(d)
            && is_descriptor(d@, control, image, size, name, grants@, args)),
{
    if grants.len() > MAX_SPAWN_GRANTS || args.len > MAX_SPAWN_ARGS as u64 {
        return Err(Error::Inval);
    }
    let mut d: [u64; 24] = [0u64; 24];
    d[0] = control.0 as u64;
    d[1] = image.0 as u64;
    d[2] = size;
    d[3] = name.ptr;
    d[4] = if name.len < 32 {
        name.len
    } else {
        32
    };
    d[5] = grants.len() as u64;
    d[6] = args.ptr;
    d[7] = args.len;
    let ghost head = d@;
    let mut i: usize = 0;
    while i < grants.len()
        invariant
            i <= grants@.len() <= 8,
            forall|k: int| 0 <= k < 8 ==> #[trigger] d@[k] == head[k],
            forall|k: int|
                0 <= k < i ==> d@[8 + 2 * k] == (#[trigger] grants@[k]).cap.0 && d@[9 + 2 * k]
                    == grants@[k].rights,
            forall|j: int| 8 + 2 * i <= j < 24 ==> #[trigger] d@[j] == 0,
        decreases grants@.len() - i,
    {
        let g: Grant = grants[i];
        d[8 + 2 * i] = g.cap.0 as u64;
        d[9 + 2 * i] = g.rights as u64;
        i = i + 1;
    }
    Ok(d)
}

/// The descriptor that starts a service without capabilities or arguments.
pub fn spawn(control: Cap, image: Cap, size: u64, name: Span) -> (r: [u64; 24])
    ensures
        is_descriptor(
            r@,
            control,
            image,
            size,
            name,
            Seq::<Grant>::empty(),
            (Span { ptr: 0, len: 0 }),
        ),
{
    let none: [Grant; 0] = [];
    match spawn_with(control, image, size, name, &none, Span { ptr: 0, len: 0 }) {
        Ok(d) => {
            assert(none@ =~= Seq::<Grant>::empty());
            d
        },
        Err(_) => [0u64; 24],
    }
}

/// Fixed-size formatting buffer, so that logging needs no allocator.
pub struct LogBuf {
    pub buf: [u8; 512],
    pub len: usize,
}

impl Default for LogBuf {
    fn default() -> (r: Self)
        ensures
            r.wf(),
            r.len == 0,
            r.buf@ == Seq::new(512, |i: int| 0u8),
    {
        LogBuf::new()
    }
}

impl LogBuf {
    pub open spec fn wf(&self) -> bool {
        self.len <= 512
    }

    /// The text so far.
    pub open spec fn text(&self) -> Seq<u8> {
        self.buf@.take(self.len as int)
    }

    pub fn new() -> (r: Self)
        ensures
            r.wf(),
            r.text() == Seq::<u8>::empty(),
            r.len == 0,
            r.buf@ == Seq::new(512, |i: int| 0u8),
    {
        let r: LogBuf = LogBuf { buf: [0u8; 512], len: 0 };
        assert(r.text() =~= Seq::<u8>::empty());
        assert(r.buf@ =~= Seq::new(512, |i: int| 0u8));
        r
    }

    pub fn as_bytes(&self) -> (r: &[u8])
        requires
            self.wf(),
        ensures
            r@ == self.text(),
    {
        slice_subrange(&self.buf, 0, self.len)
    }

    /// Add text; what does not fit is cut off.
    pub fn write_str(&mut self, s: &str)
        requires
            old(self).wf(),
        ensures
            final(self).wf(),
            final(self).text() == {
                let all = old(self).text() + s.spec_bytes();
                if all.len() <= 512 {
                    all
                } else {
                    all.take(512)
                }
            },
    {
        let b: &[u8] = s.as_bytes();
        assert(b.len() == b@.len());
        let room: usize = 512 - self.len;
        let n: usize = if b.len() < room {
            b.len()
        } else {
            room
        };
        let ghost all = self.text() + b@;
        let from: usize = self.len;
        let mut i: usize = 0;
        assert(self.buf@.take(from as int) =~= all.take(from as int));
        while i < n
            invariant
                i <= n <= b@.len(),
                b.len() == b@.len(),
                from + n <= 512,
                self.len == from,
                all.len() == from + b@.len(),
                forall|k: int| 0 <= k < b@.len() ==> all[from + k] == #[trigger] b@[k],
                self.buf@.take(from + i) == all.take(from + i),
            decreases n - i,
        {
            self.buf[from + i] = b[i];
            assert(all[from + i] == b@[i as int]);
            assert(self.buf@.take(from + i + 1) =~= all.take(from + i + 1));
            i = i + 1;
        }
        self.len = from + n;
        assert(self.text() =~= all.take(from + n));
        assert(n == b@.len() ==> all.take(from + n) =~= all);
    }
}

} // verus!
