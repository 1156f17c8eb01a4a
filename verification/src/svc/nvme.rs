//! NVMe: the commands, queues and registers of the storage controller, without
//! the memory they live in.
use vstd::prelude::*;

use crate::bytes;
use crate::rt::abi::Error;

verus! {

pub const REG_CAP: usize = 0x00;

pub const REG_VS: usize = 0x08;

pub const REG_CC: usize = 0x14;

pub const REG_CSTS: usize = 0x1C;

pub const REG_AQA: usize = 0x24;

pub const REG_ASQ: usize = 0x28;

pub const REG_ACQ: usize = 0x30;

pub const DOORBELL_BASE: usize = 0x1000;

pub const QUEUE_DEPTH: usize = 64;

pub const SQE_SIZE: usize = 64;

pub const CQE_SIZE: usize = 16;

pub const OPC_ADMIN_CREATE_IO_SQ: u32 = 0x01;

pub const OPC_ADMIN_CREATE_IO_CQ: u32 = 0x05;

pub const OPC_ADMIN_IDENTIFY: u32 = 0x06;

pub const OPC_IO_READ: u32 = 0x02;

/// Enabled, 4 KiB pages, round robin, submission entries of 64 bytes,
/// completion entries of 16.
pub const ENABLE_CC: u32 = 0x0046_0001;

/// How often the controller's readiness is looked at, every ten milliseconds.
pub const READY_TRIES: u32 = 500;

/// How often an empty completion queue is looked at before giving up.
pub const MAX_SPINS: u32 = 2_000_000;

/// Bytes one read command may transfer: two pages.
pub const MAX_BYTES: u64 = 8192;

#[derive(Clone, Copy, Debug, PartialEq, Eq, Structural)]
pub enum NvmeError {
    Sys(Error),
    Timeout,
    Status(u16),
    NotReady,
}

impl From<Error> for NvmeError {
    fn from(e: Error) -> (r: Self) {
        NvmeError::Sys(e)
    }
}

impl vstd::std_specs::convert::FromSpecImpl<Error> for NvmeError {
    open spec fn obeys_from_spec() -> bool {
        true
    }

    open spec fn from_spec(e: Error) -> Self {
        NvmeError::Sys(e)
    }
}

/// A power of two.
pub open spec fn pow2(n: int) -> int
    decreases n,
{
    if n <= 0 {
        1
    } else {
        2 * pow2(n - 1)
    }
}

proof fn lemma_pow2(m: int, n: int)
    requires
        0 <= m <= n,
    ensures
        1 <= pow2(m) <= pow2(n),
    decreases n,
{
    if m < n {
        lemma_pow2(m, n - 1);
    } else if n > 0 {
        lemma_pow2(m - 1, n - 1);
    }
}

fn power_of_two(n: u32) -> (r: u32)
    requires
        n < 32,
    ensures
        r == pow2(n as int),
{
    let mut r: u32 = 1;
    let mut i: u32 = 0;
    proof {
        reveal_with_fuel(pow2, 33);
        assert(pow2(31) == 0x8000_0000);
    }
    while i < n
        invariant
            i <= n < 32,
            r == pow2(i as int),
            pow2(31) == 0x8000_0000,
        decreases n - i,
    {
        proof {
            lemma_pow2(i + 1, 31);
        }
        r = r * 2;
        i = i + 1;
    }
    r
}

/// Bytes between two doorbells, by the capabilities register.
pub fn doorbell_stride(cap: u64) -> (r: usize)
    ensures
        r == 4 * pow2((cap / 0x1_0000_0000 % 16) as int),
        4 <= r <= 0x2_0000,
{
    let n: u32 = (cap / 0x1_0000_0000 % 16) as u32;
    proof {
        lemma_pow2(n as int, 15);
        lemma_pow2(0, n as int);
        reveal_with_fuel(pow2, 17);
        assert(pow2(15) == 0x8000);
    }
    4 * power_of_two(n) as usize
}

/// Entries of the admin queue, by the capabilities register: 64, or as many as
/// the controller can take.
pub fn admin_depth(cap: u64) -> (r: usize)
    ensures
        r == if cap % 0x1_0000 + 1 < QUEUE_DEPTH {
            (cap % 0x1_0000 + 1) as int
        } else {
            QUEUE_DEPTH as int
        },
        1 <= r <= QUEUE_DEPTH,
{
    let mqes: u64 = cap % 0x1_0000 + 1;
    if mqes < QUEUE_DEPTH as u64 {
        mqes as usize
    } else {
        QUEUE_DEPTH
    }
}

/// The configuration register with the controller switched off.
pub fn disabled_cc(cc: u32) -> (r: u32)
    ensures
        r == cc - cc % 2,
{
    cc - cc % 2
}

/// A register write.
#[derive(Clone, Copy, Debug, PartialEq, Eq, Structural)]
pub struct Write {
    pub off: usize,
    pub value: u64,
    /// Eight bytes rather than four.
    pub wide: bool,
}

/// How the admin queues are set up once the controller is off: their sizes,
/// where they are, then the switch back on.
pub fn admin_setup(depth: usize, sq: u64, cq: u64) -> (r: [Write; 4])
    requires
        1 <= depth <= QUEUE_DEPTH,
    ensures
        r@ == seq![
            Write {
                off: REG_AQA,
                value: ((depth - 1) * 0x1_0000 + (depth - 1)) as u64,
                wide: false,
            },
            Write { off: REG_ASQ, value: sq, wide: true },
            Write { off: REG_ACQ, value: cq, wide: true },
            Write { off: REG_CC, value: ENABLE_CC as u64, wide: false },
        ],
{
    let n: u64 = (depth - 1) as u64;
    let r: [Write; 4] = [
        Write { off: REG_AQA, value: n * 0x1_0000 + n, wide: false },
        Write { off: REG_ASQ, value: sq, wide: true },
        Write { off: REG_ACQ, value: cq, wide: true },
        Write { off: REG_CC, value: ENABLE_CC as u64, wide: false },
    ];
    assert(r@ =~= seq![
        Write {
            off: REG_AQA,
            value: ((depth - 1) * 0x1_0000 + (depth - 1)) as u64,
            wide: false,
        },
        Write { off: REG_ASQ, value: sq, wide: true },
        Write { off: REG_ACQ, value: cq, wide: true },
        Write { off: REG_CC, value: ENABLE_CC as u64, wide: false },
    ]);
    r
}

/// Waiting for the controller to come up or go down.
pub struct ReadyWait {
    pub ready: bool,
    pub left: u32,
}

#[derive(Clone, Copy, Debug, PartialEq, Eq, Structural)]
pub enum Waited {
    Done,
    /// Look again in ten milliseconds.
    Sleep,
    Timeout,
}

impl ReadyWait {
    pub fn new(ready: bool) -> (r: Self)
        ensures
            r.ready == ready,
            r.left == READY_TRIES,
    {
        ReadyWait { ready, left: READY_TRIES }
    }

    /// What the status register says. After five hundred looks the wait is over.
    pub fn on_status(&mut self, csts: u32) -> (r: Waited)
        ensures
            final(self).ready == old(self).ready,
            final(self).left == if old(self).left == 0 {
                0int
            } else {
                old(self).left - 1
            },
            r == if old(self).left == 0 {
                Waited::Timeout
            } else if (csts % 2 == 1) == old(self).ready {
                Waited::Done
            } else {
                Waited::Sleep
            },
    {
        if self.left == 0 {
            return Waited::Timeout;
        }
        self.left = self.left - 1;
        if (csts % 2 == 1) == self.ready {
            Waited::Done
        } else {
            Waited::Sleep
        }
    }
}

pub open spec fn lo(v: u64) -> u32 {
    (v % 0x1_0000_0000) as u32
}

pub open spec fn hi(v: u64) -> u32 {
    (v / 0x1_0000_0000) as u32
}

/// A command: sixteen words, all zero but the ones set here.
pub open spec fn command(
    opcode: u32,
    nsid: u32,
    prp1: u64,
    prp2: u64,
    w10: u32,
    w11: u32,
    w12: u32,
) -> Seq<u32> {
    seq![
        opcode,
        nsid,
        0,
        0,
        0,
        0,
        lo(prp1),
        hi(prp1),
        lo(prp2),
        hi(prp2),
        w10,
        w11,
        w12,
        0,
        0,
        0,
    ]
}

fn build(opcode: u32, nsid: u32, prp1: u64, prp2: u64, w10: u32, w11: u32, w12: u32) -> (r: [u32; 16])
    ensures
        r@ == command(opcode, nsid, prp1, prp2, w10, w11, w12),
{
    let mut c: [u32; 16] = [0u32; 16];
    c[0] = opcode;
    c[1] = nsid;
    c[6] = (prp1 % 0x1_0000_0000) as u32;
    c[7] = (prp1 / 0x1_0000_0000) as u32;
    c[8] = (prp2 % 0x1_0000_0000) as u32;
    c[9] = (prp2 / 0x1_0000_0000) as u32;
    c[10] = w10;
    c[11] = w11;
    c[12] = w12;
    assert(c@ =~= command(opcode, nsid, prp1, prp2, w10, w11, w12));
    c
}

/// Describe the controller in the page at `phys`.
pub fn identify_controller(phys: u64) -> (r: [u32; 16])
    ensures
        r@ == command(OPC_ADMIN_IDENTIFY, 0, phys, 0, 1, 0, 0),
{
    build(OPC_ADMIN_IDENTIFY, 0, phys, 0, 1, 0, 0)
}

/// Describe namespace 1 in the page at `phys`.
pub fn identify_namespace(phys: u64) -> (r: [u32; 16])
    ensures
        r@ == command(OPC_ADMIN_IDENTIFY, 1, phys, 0, 0, 0, 0),
{
    build(OPC_ADMIN_IDENTIFY, 1, phys, 0, 0, 0, 0)
}

/// Make a completion queue in physically contiguous memory, with interrupts if
/// there is an endpoint for them.
pub fn create_cq(id: u16, depth: usize, phys: u64, irq: bool) -> (r: [u32; 16])
    requires
        1 <= depth <= QUEUE_DEPTH,
    ensures
        r@ == command(
            OPC_ADMIN_CREATE_IO_CQ,
            0,
            phys,
            0,
            ((depth - 1) * 0x1_0000 + id) as u32,
            if irq {
                3
            } else {
                1
            },
            0,
        ),
{
    let size: u32 = (depth - 1) as u32 * 0x1_0000 + id as u32;
    let flags: u32 = if irq {
        3
    } else {
        1
    };
    build(OPC_ADMIN_CREATE_IO_CQ, 0, phys, 0, size, flags, 0)
}

/// Make a submission queue in physically contiguous memory whose completions go
/// to the completion queue of the same number.
pub fn create_sq(id: u16, depth: usize, phys: u64) -> (r: [u32; 16])
    requires
        1 <= depth <= QUEUE_DEPTH,
    ensures
        r@ == command(
            OPC_ADMIN_CREATE_IO_SQ,
            0,
            phys,
            0,
            ((depth - 1) * 0x1_0000 + id) as u32,
            (id * 0x1_0000 + 1) as u32,
            0,
        ),
{
    let size: u32 = (depth - 1) as u32 * 0x1_0000 + id as u32;
    build(OPC_ADMIN_CREATE_IO_SQ, 0, phys, 0, size, id as u32 * 0x1_0000 + 1, 0)
}

/// The command that reads `count` blocks from `lba` on into physically
/// contiguous memory at `phys`, or why there is none: two pages are the most one
/// command covers.
pub open spec fn read_of(lba: u64, count: u16, phys: u64, block_size: u32) -> Result<Seq<u32>, NvmeError> {
    let n = count * block_size;
    if n == 0 || n > MAX_BYTES {
        Err(NvmeError::NotReady)
    } else {
        Ok(
            command(
                OPC_IO_READ,
                1,
                phys,
                if n > 4096 {
                    (phys - phys % 4096 + 4096) as u64
                } else {
                    0
                },
                lo(lba),
                hi(lba),
                (count - 1) as u32,
            ),
        )
    }
}

pub fn read_command(lba: u64, count: u16, phys: u64, block_size: u32) -> (r: Result<[u32; 16], NvmeError>)
    requires
        phys <= i64::MAX,
    ensures
        match read_of(lba, count, phys, block_size) {
            Ok(c) => r matches Ok(a) && a@ == c,
            Err(e) => r matches Err(x) && x == e,
        },
{
    assert(count * block_size <= 0xffff * 0xffff_ffff) by (nonlinear_arith)
        requires
            count <= 0xffff,
            block_size <= 0xffff_ffff,
    ;
    let n: u64 = count as u64 * block_size as u64;
    if n == 0 || n > MAX_BYTES {
        return Err(NvmeError::NotReady);
    }
    assert(count >= 1) by {
        if count == 0 {
            assert(count * block_size == 0) by (nonlinear_arith)
                requires
                    count == 0,
            ;
        }
    }
    let prp2: u64 = if n > 4096 {
        phys - phys % 4096 + 4096
    } else {
        0
    };
    Ok(
        build(
            OPC_IO_READ,
            1,
            phys,
            prp2,
            (lba % 0x1_0000_0000) as u32,
            (lba / 0x1_0000_0000) as u32,
            (count - 1) as u32,
        ),
    )
}

/// What a namespace's page says: its blocks and their size. The size is a power
/// of two; one that does not fit 32 bits is refused.
pub open spec fn namespace_of(page: Seq<u8>) -> Option<(u64, u32)> {
    let flbas = page[26] % 16;
    let lbaf = bytes::le_u32(page, 128 + 4 * flbas);
    let shift = lbaf / 0x1_0000 % 0x100;
    if shift < 32 {
        Some((bytes::le_u64(page, 0), pow2(shift as int) as u32))
    } else {
        None
    }
}

pub fn namespace(page: &[u8]) -> (r: Option<(u64, u32)>)
    requires
        page@.len() >= 192,
    ensures
        r == namespace_of(page@),
        r matches Some(v) ==> v.1 > 0,
{
    let flbas: usize = (page[26] % 16) as usize;
    let lbaf: u32 = bytes::get_u32(page, 128 + 4 * flbas);
    let shift: u32 = lbaf / 0x1_0000 % 0x100;
    if shift >= 32 {
        return None;
    }
    proof {
        lemma_pow2(0, shift as int);
    }
    let size: u32 = power_of_two(shift);
    Some((bytes::get_u64(page, 0), size))
}

/// Serial number and model out of a controller's page.
pub fn controller(page: &[u8]) -> (r: ([u8; 20], [u8; 40]))
    requires
        page@.len() >= 64,
    ensures
        r.0@ == page@.subrange(4, 24),
        r.1@ == page@.subrange(24, 64),
{
    let mut serial: [u8; 20] = [0u8; 20];
    let mut model: [u8; 40] = [0u8; 40];
    let mut i: usize = 0;
    while i < 20
        invariant
            i <= 20,
            page@.len() >= 64,
            forall|k: int| 0 <= k < i ==> #[trigger] serial@[k] == page@[4 + k],
        decreases 20 - i,
    {
        serial[i] = page[4 + i];
        i = i + 1;
    }
    let mut j: usize = 0;
    while j < 40
        invariant
            j <= 40,
            page@.len() >= 64,
            forall|k: int| 0 <= k < j ==> #[trigger] model@[k] == page@[24 + k],
        decreases 40 - j,
    {
        model[j] = page[24 + j];
        j = j + 1;
    }
    assert(serial@ =~= page@.subrange(4, 24));
    assert(model@ =~= page@.subrange(24, 64));
    (serial, model)
}

/// A queue pair: where the next command goes and the next completion comes
/// from.
#[derive(Clone, Copy, Debug, PartialEq, Eq, Structural)]
pub struct Queue {
    pub depth: usize,
    pub sq_tail: usize,
    pub cq_head: usize,
    /// The phase bit of completions that are new. It changes with every round.
    pub phase: u16,
    pub id: u16,
    pub next_cid: u16,
}

/// What to write for a command.
pub struct Submission {
    /// Offset of the entry in the submission queue.
    pub at: usize,
    pub entry: [u32; 16],
    /// Offset of the doorbell register, and its new value.
    pub doorbell: usize,
    pub tail: u32,
    pub cid: u16,
}

/// A completion that came.
pub struct Completion {
    pub result: Result<u32, NvmeError>,
    /// The command it is for.
    pub cid: u16,
    pub doorbell: usize,
    pub head: u32,
}

impl Queue {
    pub open spec fn wf(&self) -> bool {
        &&& 1 <= self.depth <= QUEUE_DEPTH
        &&& self.sq_tail < self.depth
        &&& self.cq_head < self.depth
        &&& self.phase <= 1
        &&& self.id <= 1
    }

    pub fn new(id: u16, depth: usize) -> (r: Self)
        requires
            1 <= depth <= QUEUE_DEPTH,
            id <= 1,
        ensures
            r.wf(),
            r == (Queue { depth, sq_tail: 0, cq_head: 0, phase: 1, id, next_cid: 0 }),
    {
        Queue { depth, sq_tail: 0, cq_head: 0, phase: 1, id, next_cid: 0 }
    }

    /// Where the doorbells of the queue are.
    pub open spec fn doorbell(&self, stride: int, completion: int) -> int {
        DOORBELL_BASE + (2 * self.id + completion) * stride
    }

    /// Put a command into the queue, under a number of its own.
    pub fn submit(&mut self, cmd: &[u32; 16], stride: usize) -> (r: Submission)
        requires
            old(self).wf(),
            stride <= 0x2_0000,
        ensures
            final(self).wf(),
            *final(self) == (Queue {
                sq_tail: if old(self).sq_tail + 1 == old(self).depth {
                    0
                } else {
                    (old(self).sq_tail + 1) as usize
                },
                next_cid: if old(self).next_cid == u16::MAX {
                    0
                } else {
                    (old(self).next_cid + 1) as u16
                },
                ..*old(self)
            }),
            r.at == old(self).sq_tail * SQE_SIZE,
            r.at + SQE_SIZE <= 4096,
            r.entry@ == cmd@.update(
                0,
                (cmd@[0] % 0x100 + old(self).next_cid * 0x1_0000) as u32,
            ),
            r.doorbell == old(self).doorbell(stride as int, 0),
            r.tail == final(self).sq_tail,
            r.cid == old(self).next_cid,
    {
        let cid: u16 = self.next_cid;
        self.next_cid = if cid == u16::MAX {
            0
        } else {
            cid + 1
        };
        let mut entry: [u32; 16] = *cmd;
        entry[0] = cmd[0] % 0x100 + cid as u32 * 0x1_0000;
        let at: usize = self.sq_tail * 64;
        self.sq_tail = if self.sq_tail + 1 == self.depth {
            0
        } else {
            self.sq_tail + 1
        };
        let pair: usize = if self.id == 0 {
            0
        } else {
            2 * stride
        };
        assert(pair == (2 * self.id + 0) * stride) by (nonlinear_arith)
            requires
                self.id <= 1,
                pair == if self.id == 0 {
                    0int
                } else {
                    2 * stride
                },
        ;
        Submission { at, entry, doorbell: DOORBELL_BASE + pair, tail: self.sq_tail as u32, cid }
    }

    /// Offset of the completion entry that comes next.
    pub fn completion_at(&self) -> (r: usize)
        requires
            self.wf(),
        ensures
            r == self.cq_head * CQE_SIZE,
            r + CQE_SIZE <= 4096,
    {
        self.cq_head * 16
    }

    /// Look at the completion entry that comes next: its first and its last
    /// word. `None` while it is not new.
    pub fn complete(&mut self, dw0: u32, dw3: u32, stride: usize) -> (r: Option<Completion>)
        requires
            old(self).wf(),
            stride <= 0x2_0000,
        ensures
            final(self).wf(),
            dw3 / 0x1_0000 % 2 != old(self).phase ==> r is None && *final(self) == *old(self),
            dw3 / 0x1_0000 % 2 == old(self).phase ==> {
                let wraps = old(self).cq_head + 1 == old(self).depth;
                let status = (dw3 / 0x2_0000) as u16;
                &&& *final(self) == (Queue {
                    cq_head: if wraps {
                        0
                    } else {
                        (old(self).cq_head + 1) as usize
                    },
                    phase: if wraps {
                        (1 - old(self).phase) as u16
                    } else {
                        old(self).phase
                    },
                    ..*old(self)
                })
                &&& r matches Some(c) && {
                    &&& c.result == if status == 0 {
                        Ok::<u32, NvmeError>(dw0)
                    } else {
                        Err::<u32, NvmeError>(NvmeError::Status(status))
                    }
                    &&& c.cid == dw3 % 0x1_0000
                    &&& c.doorbell == old(self).doorbell(stride as int, 1)
                    &&& c.head == final(self).cq_head
                }
            },
    {
        let phase: u16 = (dw3 / 0x1_0000 % 2) as u16;
        if phase != self.phase {
            return None;
        }
        let status: u16 = (dw3 / 0x2_0000) as u16;
        self.cq_head = self.cq_head + 1;
        if self.cq_head == self.depth {
            self.cq_head = 0;
            self.phase = 1 - self.phase;
        }
        let result: Result<u32, NvmeError> = if status == 0 {
            Ok(dw0)
        } else {
            Err(NvmeError::Status(status))
        };
        let pair: usize = if self.id == 0 {
            stride
        } else {
            3 * stride
        };
        assert(pair == (2 * self.id + 1) * stride) by (nonlinear_arith)
            requires
                self.id <= 1,
                pair == if self.id == 0 {
                    stride as int
                } else {
                    3 * stride
                },
        ;
        Some(
            Completion {
                result,
                cid: (dw3 % 0x1_0000) as u16,
                doorbell: DOORBELL_BASE + pair,
                head: self.cq_head as u32,
            },
        )
    }
}

/// What to do while a completion has not come: without interrupts the queue is
/// looked at again, up to a limit; with them the driver waits for one.
pub fn idle(spins: u32, woken: Option<bool>) -> (r: Result<u32, NvmeError>)
    requires
        spins <= MAX_SPINS,
    ensures
        r == match woken {
            Some(true) => Ok::<u32, NvmeError>(spins),
            Some(false) => Err::<u32, NvmeError>(NvmeError::Timeout),
            None => if spins + 1 > MAX_SPINS {
                Err::<u32, NvmeError>(NvmeError::Timeout)
            } else {
                Ok::<u32, NvmeError>((spins + 1) as u32)
            },
        },
{
    match woken {
        Some(ok) => if ok {
            Ok(spins)
        } else {
            Err(NvmeError::Timeout)
        },
        None => {
            let n: u32 = spins + 1;
            if n > MAX_SPINS {
                Err(NvmeError::Timeout)
            } else {
                Ok(n)
            }
        },
    }
}

/// Physical addresses of the pages the driver uses.
#[derive(Clone, Copy, Debug, PartialEq, Eq, Structural)]
pub struct Pages {
    pub admin_sq: u64,
    pub admin_cq: u64,
    /// Where the controller describes itself.
    pub ident: u64,
    pub io_sq: u64,
    pub io_cq: u64,
}

/// How far the start of the controller has come: what is waited for.
#[derive(Clone, Copy, Debug, PartialEq, Eq, Structural)]
pub enum Phase {
    /// The capabilities and the configuration.
    Probe,
    /// That it goes down, with so many looks left.
    Down(u32),
    /// That it comes up.
    Up(u32),
    /// Its description.
    Controller,
    /// The description of its first namespace.
    Namespace,
    /// The I/O completion queue.
    MakeCq,
    /// The I/O submission queue.
    MakeSq,
    Ready,
    Failed(NvmeError),
}

/// What happened.
#[derive(Clone, Copy, Debug)]
pub enum Event {
    /// The registers read.
    Probed { cap: u64, cc: u32 },
    /// The status register read.
    Status(u32),
    /// The admin command completed.
    Done(Result<u32, NvmeError>),
}

/// What to do next.
pub enum Act {
    /// Write the configuration register, then read the status.
    Disable(u32),
    /// Set the admin queues up, then read the status.
    Setup([Write; 4]),
    /// Read the status again in ten milliseconds.
    Sleep,
    /// Have an admin command carried out.
    Command([u32; 16]),
    /// Nothing: the controller is ready, or its start failed.
    Stop,
}

/// The driver's state.
pub struct Nvme {
    pub pages: Pages,
    /// Whether there is an endpoint for interrupts; without one completions are
    /// polled.
    pub irq: bool,
    pub phase: Phase,
    pub stride: usize,
    pub admin: Queue,
    pub io: Option<Queue>,
    pub block_size: u32,
    pub blocks: u64,
    pub model: [u8; 40],
    pub serial: [u8; 20],
}

/// The phase after a look at the status while waiting.
pub open spec fn waited(left: u32, ready: bool, csts: u32, again: Phase, then_next: Phase) -> Phase {
    if left == 0 {
        Phase::Failed(NvmeError::Timeout)
    } else if (csts % 2 == 1) == ready {
        then_next
    } else {
        again
    }
}

/// The phase that follows.
pub open spec fn next_phase(phase: Phase, e: Event, page: Seq<u8>) -> Phase {
    match (phase, e) {
        (Phase::Probe, Event::Probed { cap, cc }) => Phase::Down(READY_TRIES),
        (Phase::Down(n), Event::Status(s)) => waited(
            n,
            false,
            s,
            Phase::Down((n - 1) as u32),
            Phase::Up(READY_TRIES),
        ),
        (Phase::Up(n), Event::Status(s)) => waited(
            n,
            true,
            s,
            Phase::Up((n - 1) as u32),
            Phase::Controller,
        ),
        (Phase::Controller, Event::Done(r)) => match r {
            Ok(_) => Phase::Namespace,
            Err(x) => Phase::Failed(x),
        },
        (Phase::Namespace, Event::Done(r)) => match r {
            Ok(_) => if namespace_of(page) is Some {
                Phase::MakeCq
            } else {
                Phase::Failed(NvmeError::NotReady)
            },
            Err(x) => Phase::Failed(x),
        },
        (Phase::MakeCq, Event::Done(r)) => match r {
            Ok(_) => Phase::MakeSq,
            Err(x) => Phase::Failed(x),
        },
        (Phase::MakeSq, Event::Done(r)) => match r {
            Ok(_) => Phase::Ready,
            Err(x) => Phase::Failed(x),
        },
        _ => phase,
    }
}

impl Nvme {
    pub open spec fn wf(&self) -> bool {
        &&& self.admin.wf()
        &&& self.admin.id == 0
        &&& self.stride <= 0x2_0000
        &&& self.io matches Some(q) ==> q.wf() && q.id == 1
        &&& self.phase is Ready ==> self.io is Some
        &&& self.phase is MakeCq || self.phase is MakeSq || self.phase is Ready ==> self.block_size > 0
    }

    pub fn new(pages: Pages, irq: bool) -> (r: Self)
        ensures
            r.wf(),
            r.phase is Probe,
            r.pages == pages,
            r.irq == irq,
            r.stride == 0,
            r.admin == (Queue {
                depth: QUEUE_DEPTH,
                sq_tail: 0,
                cq_head: 0,
                phase: 1,
                id: 0,
                next_cid: 0,
            }),
            r.io is None,
            r.block_size == 0,
            r.blocks == 0,
            r.model@ == Seq::new(40, |i: int| 0u8),
            r.serial@ == Seq::new(20, |i: int| 0u8),
    {
        let model: [u8; 40] = [0u8; 40];
        let serial: [u8; 20] = [0u8; 20];
        assert(model@ =~= Seq::new(40, |i: int| 0u8));
        assert(serial@ =~= Seq::new(20, |i: int| 0u8));
        Nvme {
            pages,
            irq,
            phase: Phase::Probe,
            stride: 0,
            admin: Queue::new(0, QUEUE_DEPTH),
            io: None,
            block_size: 0,
            blocks: 0,
            model,
            serial,
        }
    }

    /// Bring the controller up, step by step: off, admin queues, on, identify the
    /// controller and its first namespace, then one pair of I/O queues, the
    /// completion queue first. `page` is the page for descriptions.
    pub fn step(&mut self, e: Event, page: &[u8]) -> (r: Act)
        requires
            old(self).wf(),
            page@.len() >= 192,
        ensures
            final(self).wf(),
            final(self).pages == old(self).pages,
            final(self).irq == old(self).irq,
            final(self).phase == next_phase(old(self).phase, e, page@),
            // What the registers and the descriptions say is kept.
            final(self).stride == match (old(self).phase, e) {
                (Phase::Probe, Event::Probed { cap, cc }) => 4 * pow2((cap / 0x1_0000_0000 % 16) as int),
                _ => old(self).stride as int,
            },
            final(self).admin == match (old(self).phase, e) {
                (Phase::Probe, Event::Probed { cap, cc }) => Queue {
                    depth: if cap % 0x1_0000 + 1 < QUEUE_DEPTH {
                        (cap % 0x1_0000 + 1) as usize
                    } else {
                        QUEUE_DEPTH
                    },
                    sq_tail: 0,
                    cq_head: 0,
                    phase: 1,
                    id: 0,
                    next_cid: 0,
                },
                _ => old(self).admin,
            },
            old(self).phase is Controller && final(self).phase is Namespace ==> final(self).serial@
                == page@.subrange(4, 24) && final(self).model@ == page@.subrange(24, 64),
            !(old(self).phase is Controller && final(self).phase is Namespace) ==> final(self).serial
                == old(self).serial && final(self).model == old(self).model,
            old(self).phase is Namespace && final(self).phase is MakeCq ==> Some(
                (final(self).blocks, final(self).block_size),
            ) == namespace_of(page@),
            !(old(self).phase is Namespace && final(self).phase is MakeCq) ==> final(self).blocks == old(
                self,
            ).blocks && final(self).block_size == old(self).block_size,
            final(self).io == if old(self).phase is MakeSq && final(self).phase is Ready {
                Some(
                    Queue {
                        depth: QUEUE_DEPTH,
                        sq_tail: 0,
                        cq_head: 0,
                        phase: 1,
                        id: 1,
                        next_cid: 0,
                    },
                )
            } else {
                old(self).io
            },
            // What comes next.
            final(self).phase == old(self).phase && !(e is Status && (old(self).phase is Down || old(
                self,
            ).phase is Up)) ==> r is Stop,
            old(self).phase is Probe && final(self).phase is Down ==> (r matches Act::Disable(v) && v
                == e->cc - e->cc % 2),
            old(self).phase is Down && final(self).phase is Up ==> (r matches Act::Setup(w) && w@ == seq![
                Write {
                    off: REG_AQA,
                    value: ((final(self).admin.depth - 1) * 0x1_0000 + (final(self).admin.depth
                        - 1)) as u64,
                    wide: false,
                },
                Write { off: REG_ASQ, value: final(self).pages.admin_sq, wide: true },
                Write { off: REG_ACQ, value: final(self).pages.admin_cq, wide: true },
                Write { off: REG_CC, value: ENABLE_CC as u64, wide: false },
            ]),
            old(self).phase is Up && final(self).phase is Controller ==> (r matches Act::Command(c) && c@
                == command(OPC_ADMIN_IDENTIFY, 0, final(self).pages.ident, 0, 1, 0, 0)),
            old(self).phase is Controller && final(self).phase is Namespace ==> (r matches Act::Command(c)
                && c@ == command(OPC_ADMIN_IDENTIFY, 1, final(self).pages.ident, 0, 0, 0, 0)),
            old(self).phase is Namespace && final(self).phase is MakeCq ==> (r matches Act::Command(c)
                && c@ == command(
                OPC_ADMIN_CREATE_IO_CQ,
                0,
                final(self).pages.io_cq,
                0,
                0x3f_0001,
                if final(self).irq {
                    3
                } else {
                    1
                },
                0,
            )),
            old(self).phase is MakeCq && final(self).phase is MakeSq ==> (r matches Act::Command(c) && c@
                == command(
                OPC_ADMIN_CREATE_IO_SQ,
                0,
                final(self).pages.io_sq,
                0,
                0x3f_0001,
                0x1_0001,
                0,
            )),
            final(self).phase is Ready || final(self).phase is Failed ==> r is Stop,
            old(self).phase is Down && final(self).phase is Down && e is Status ==> r is Sleep,
            old(self).phase is Up && final(self).phase is Up && e is Status ==> r is Sleep,
    {
        match (self.phase, e) {
            (Phase::Probe, Event::Probed { cap, cc }) => {
                self.stride = doorbell_stride(cap);
                self.admin = Queue::new(0, admin_depth(cap));
                self.phase = Phase::Down(READY_TRIES);
                Act::Disable(disabled_cc(cc))
            },
            (Phase::Down(n), Event::Status(s)) => {
                let mut w: ReadyWait = ReadyWait { ready: false, left: n };
                match w.on_status(s) {
                    Waited::Timeout => {
                        self.phase = Phase::Failed(NvmeError::Timeout);
                        Act::Stop
                    },
                    Waited::Sleep => {
                        self.phase = Phase::Down(w.left);
                        Act::Sleep
                    },
                    Waited::Done => {
                        self.phase = Phase::Up(READY_TRIES);
                        Act::Setup(
                            admin_setup(self.admin.depth, self.pages.admin_sq, self.pages.admin_cq),
                        )
                    },
                }
            },
            (Phase::Up(n), Event::Status(s)) => {
                let mut w: ReadyWait = ReadyWait { ready: true, left: n };
                match w.on_status(s) {
                    Waited::Timeout => {
                        self.phase = Phase::Failed(NvmeError::Timeout);
                        Act::Stop
                    },
                    Waited::Sleep => {
                        self.phase = Phase::Up(w.left);
                        Act::Sleep
                    },
                    Waited::Done => {
                        self.phase = Phase::Controller;
                        Act::Command(identify_controller(self.pages.ident))
                    },
                }
            },
            (Phase::Controller, Event::Done(r)) => match r {
                Err(x) => {
                    self.phase = Phase::Failed(x);
                    Act::Stop
                },
                Ok(_) => {
                    let (serial, model) = controller(page);
                    self.serial = serial;
                    self.model = model;
                    self.phase = Phase::Namespace;
                    Act::Command(identify_namespace(self.pages.ident))
                },
            },
            (Phase::Namespace, Event::Done(r)) => match r {
                Err(x) => {
                    self.phase = Phase::Failed(x);
                    Act::Stop
                },
                Ok(_) => match namespace(page) {
                    None => {
                        self.phase = Phase::Failed(NvmeError::NotReady);
                        Act::Stop
                    },
                    Some((blocks, size)) => {
                        self.blocks = blocks;
                        self.block_size = size;
                        self.phase = Phase::MakeCq;
                        Act::Command(create_cq(1, QUEUE_DEPTH, self.pages.io_cq, self.irq))
                    },
                },
            },
            (Phase::MakeCq, Event::Done(r)) => match r {
                Err(x) => {
                    self.phase = Phase::Failed(x);
                    Act::Stop
                },
                Ok(_) => {
                    self.phase = Phase::MakeSq;
                    Act::Command(create_sq(1, QUEUE_DEPTH, self.pages.io_sq))
                },
            },
            (Phase::MakeSq, Event::Done(r)) => match r {
                Err(x) => {
                    self.phase = Phase::Failed(x);
                    Act::Stop
                },
                Ok(_) => {
                    self.io = Some(Queue::new(1, QUEUE_DEPTH));
                    self.phase = Phase::Ready;
                    Act::Stop
                },
            },
            _ => Act::Stop,
        }
    }

    /// `self` is `old` but for one of its queues.
    pub open spec fn queue_is(&self, old: &Nvme, admin: bool, q: Queue) -> bool {
        &&& self.pages == old.pages
        &&& self.irq == old.irq
        &&& self.phase == old.phase
        &&& self.stride == old.stride
        &&& self.block_size == old.block_size
        &&& self.blocks == old.blocks
        &&& self.model == old.model
        &&& self.serial == old.serial
        &&& if admin {
            self.admin == q && self.io == old.io
        } else {
            self.admin == old.admin && self.io == Some(q)
        }
    }

    /// The queue after a command was put into it.
    pub open spec fn queued(q: Queue) -> Queue {
        Queue {
            sq_tail: if q.sq_tail + 1 == q.depth {
                0
            } else {
                (q.sq_tail + 1) as usize
            },
            next_cid: if q.next_cid == u16::MAX {
                0
            } else {
                (q.next_cid + 1) as u16
            },
            ..q
        }
    }

    /// What to write for a command that was put into a queue.
    pub open spec fn written(q: Queue, cmd: Seq<u32>, stride: int, s: Submission) -> bool {
        &&& s.at == q.sq_tail * SQE_SIZE
        &&& s.at + SQE_SIZE <= 4096
        &&& s.entry@ == cmd.update(0, (cmd[0] % 0x100 + q.next_cid * 0x1_0000) as u32)
        &&& s.doorbell == q.doorbell(stride, 0)
        &&& s.tail == Self::queued(q).sq_tail
        &&& s.cid == q.next_cid
    }

    /// Put a command into the admin queue or the I/O queue; the latter is there
    /// once the controller is ready.
    pub fn submit(&mut self, admin: bool, cmd: &[u32; 16]) -> (r: Result<Submission, NvmeError>)
        requires
            old(self).wf(),
        ensures
            final(self).wf(),
            !admin && old(self).io is None ==> (r matches Err(e) && e == NvmeError::NotReady)
                && *final(self) == *old(self),
            admin || old(self).io is Some ==> {
                let q = if admin {
                    old(self).admin
                } else {
                    old(self).io->0
                };
                &&& final(self).queue_is(old(self), admin, Self::queued(q))
                &&& r matches Ok(s) && Self::written(q, cmd@, old(self).stride as int, s)
            },
    {
        let stride: usize = self.stride;
        if admin {
            return Ok(self.admin.submit(cmd, stride));
        }
        let mut q: Queue = match self.io {
            None => {
                return Err(NvmeError::NotReady);
            },
            Some(q) => q,
        };
        let s: Submission = q.submit(cmd, stride);
        self.io = Some(q);
        Ok(s)
    }

    /// Read `count` blocks starting at `lba` into physically contiguous memory at
    /// `phys`.
    pub fn read_phys(&mut self, lba: u64, count: u16, phys: u64) -> (r: Result<Submission, NvmeError>)
        requires
            old(self).wf(),
            phys <= i64::MAX,
        ensures
            final(self).wf(),
            match read_of(lba, count, phys, old(self).block_size) {
                Err(e) => (r matches Err(x) && x == e) && *final(self) == *old(self),
                Ok(cmd) => match old(self).io {
                    None => (r matches Err(x) && x == NvmeError::NotReady) && *final(self) == *old(self),
                    Some(q) => {
                        &&& final(self).queue_is(old(self), false, Self::queued(q))
                        &&& r matches Ok(s) && Self::written(q, cmd, old(self).stride as int, s)
                    },
                },
            },
    {
        match read_command(lba, count, phys, self.block_size) {
            Err(e) => Err(e),
            Ok(cmd) => self.submit(false, &cmd),
        }
    }

    /// Look at the completion entry that comes next in a queue.
    pub fn complete(&mut self, admin: bool, dw0: u32, dw3: u32) -> (r: Option<Completion>)
        requires
            old(self).wf(),
            admin || old(self).io is Some,
        ensures
            final(self).wf(),
            ({
                let q = if admin {
                    old(self).admin
                } else {
                    old(self).io->0
                };
                let wraps = q.cq_head + 1 == q.depth;
                let status = (dw3 / 0x2_0000) as u16;
                if dw3 / 0x1_0000 % 2 != q.phase {
                    r is None && *final(self) == *old(self)
                } else {
                    let q1 = Queue {
                        cq_head: if wraps {
                            0
                        } else {
                            (q.cq_head + 1) as usize
                        },
                        phase: if wraps {
                            (1 - q.phase) as u16
                        } else {
                            q.phase
                        },
                        ..q
                    };
                    &&& final(self).queue_is(old(self), admin, q1)
                    &&& r matches Some(c) && {
                        &&& c.result == if status == 0 {
                            Ok::<u32, NvmeError>(dw0)
                        } else {
                            Err::<u32, NvmeError>(NvmeError::Status(status))
                        }
                        &&& c.cid == dw3 % 0x1_0000
                        &&& c.doorbell == q.doorbell(old(self).stride as int, 1)
                        &&& c.head == q1.cq_head
                    }
                }
            }),
    {
        let stride: usize = self.stride;
        if admin {
            return self.admin.complete(dw0, dw3, stride);
        }
        match self.io {
            None => None,
            Some(q0) => {
                let mut q: Queue = q0;
                let c: Option<Completion> = q.complete(dw0, dw3, stride);
                self.io = Some(q);
                c
            },
        }
    }
}

/// A read never touches memory past its buffer: the blocks fit the page of the
/// buffer and the one after it, which the second address names.
pub proof fn lemma_read_in_two_pages(lba: u64, count: u16, phys: u64, block_size: u32)
    requires
        phys % 4096 == 0,
        phys <= i64::MAX,
        read_of(lba, count, phys, block_size) is Ok,
    ensures
        ({
            let c = read_of(lba, count, phys, block_size)->Ok_0;
            let second = c[8] + 0x1_0000_0000 * c[9];
            &&& c[6] + 0x1_0000_0000 * c[7] == phys
            &&& count * block_size <= 8192
            &&& count * block_size > 4096 ==> second == phys + 4096
            &&& count * block_size <= 4096 ==> second == 0
        }),
{
}

/// Each step doubles, from one.
pub proof fn lemma_doubles(n: int)
    requires
        n >= 0,
    ensures
        pow2(0) == 1,
        pow2(n + 1) == pow2(n) + pow2(n),
{
}

/// What a read command tells the controller: to read, from the first namespace, so
/// many blocks from this one on, to this address. It is made for one byte to two
/// pages and for nothing else.
pub proof fn lemma_read_words(lba: u64, count: u16, phys: u64, block_size: u32)
    requires
        phys <= i64::MAX,
    ensures
        read_of(lba, count, phys, block_size) is Ok <==> 1 <= count * block_size <= 8192,
        read_of(lba, count, phys, block_size) matches Ok(c) ==> {
            &&& c.len() == 16
            &&& c[0] == 2
            &&& c[1] == 1
            &&& c[6] + 0x1_0000_0000 * c[7] == phys
            &&& c[10] + 0x1_0000_0000 * c[11] == lba
            &&& c[12] + 1 == count
            &&& c[2] == 0 && c[3] == 0 && c[4] == 0 && c[5] == 0 && c[13] == 0 && c[14] == 0 && c[15] == 0
        },
{
    let n = count * block_size;
    assert(count == 0 ==> n == 0) by (nonlinear_arith)
        requires
            n == count * block_size,
    ;
    assert(n >= 0) by (nonlinear_arith)
        requires
            n == count * block_size,
            count >= 0,
            block_size >= 0,
    ;
}

/// A namespace has as many blocks as the first eight bytes of its page say, of the
/// size that the format in use has: two to the power of a byte of it.
pub proof fn lemma_namespace(page: Seq<u8>)
    requires
        page.len() >= 192,
    ensures
        ({
            let used = page[26] as int % 16;
            let power = page[128 + 4 * used + 2] as int;
            &&& namespace_of(page) is Some <==> power < 32
            &&& namespace_of(page) matches Some(v) ==> v.0 == bytes::le_u64(page, 0) && v.1 == pow2(power)
        }),
{
    let used = page[26] as int % 16;
    bytes::lemma_least_first(page, 128 + 4 * used);
    let lbaf = bytes::le_u32(page, 128 + 4 * used) as int;
    let a = page[128 + 4 * used] as int;
    let b = page[128 + 4 * used + 1] as int;
    let c = page[128 + 4 * used + 2] as int;
    let d = page[128 + 4 * used + 3] as int;
    assert(lbaf == a + 256 * b + 0x1_0000 * (c + 256 * d));
    vstd::arithmetic::div_mod::lemma_fundamental_div_mod_converse(lbaf, 0x1_0000, c + 256 * d, a + 256 * b);
    vstd::arithmetic::div_mod::lemma_fundamental_div_mod_converse(c + 256 * d, 256, d, c);
    if c < 32 {
        lemma_pow2(c, 31);
        assert(pow2(31) == 0x8000_0000) by {
            reveal_with_fuel(pow2, 33);
        }
    }
}

/// The commands of a queue go round: each takes the place after the one before, and
/// the first follows the last; and each has the number after the one before. Its
/// first word has its code below and its number above.
pub proof fn lemma_ring(q: Queue, cmd: Seq<u32>, stride: int, s: Submission)
    requires
        q.wf(),
        cmd.len() == 16,
        cmd[0] < 0x100,
        Nvme::written(q, cmd, stride, s),
    ensures
        ({
            let p = Nvme::queued(q);
            &&& p.sq_tail == (q.sq_tail + 1) % q.depth as int
            &&& p.next_cid == (q.next_cid + 1) % 0x1_0000
            &&& p.depth == q.depth && p.cq_head == q.cq_head && p.phase == q.phase && p.id == q.id
            &&& s.tail == p.sq_tail
            &&& s.at == 64 * q.sq_tail
            &&& s.entry@[0] % 0x1_0000 == cmd[0]
            &&& s.entry@[0] / 0x1_0000 == q.next_cid
            &&& s.cid == q.next_cid
            &&& forall|i: int| 0 < i < 16 ==> #[trigger] s.entry@[i] == cmd[i]
        }),
{
    let n = q.depth as int;
    if q.sq_tail + 1 == n {
        vstd::arithmetic::div_mod::lemma_mod_self_0(n);
    } else {
        vstd::arithmetic::div_mod::lemma_small_mod((q.sq_tail + 1) as nat, n as nat);
    }
}

/// The doorbells of the queues follow each other from 0x1000 on: those of the admin
/// queue first, and of each queue the one for commands before the one for
/// completions.
pub proof fn lemma_doorbells(q: Queue, stride: int)
    ensures
        q.id == 0 ==> q.doorbell(stride, 0) == 0x1000 && q.doorbell(stride, 1) == 0x1000 + stride,
        q.id == 1 ==> q.doorbell(stride, 0) == 0x1000 + 2 * stride && q.doorbell(stride, 1) == 0x1000 + 3 * stride,
{
    assert(0 * stride == 0 && 1 * stride == stride) by (nonlinear_arith);
    assert(q.id == 0 ==> 2 * q.id + 0 == 0 && 2 * q.id + 1 == 1);
}

/// The controller comes up in this order and no other: it goes off, comes on,
/// describes itself and its first namespace, and gets its completion queue before
/// its submission queue. A command that fails ends it, and so does a state that
/// does not come in 500 looks.
pub proof fn lemma_start_order(
    cap: u64,
    cc: u32,
    v: u32,
    x: NvmeError,
    n: u32,
    off: u32,
    on: u32,
    page: Seq<u8>,
)
    requires
        off % 2 == 0,
        on % 2 == 1,
        n > 0,
    ensures
        next_phase(Phase::Probe, Event::Probed { cap, cc }, page) == Phase::Down(500),
        next_phase(Phase::Down(n), Event::Status(off), page) == Phase::Up(500),
        next_phase(Phase::Down(n), Event::Status(on), page) == Phase::Down((n - 1) as u32),
        next_phase(Phase::Down(0), Event::Status(on), page) == Phase::Failed(NvmeError::Timeout),
        next_phase(Phase::Up(n), Event::Status(on), page) == Phase::Controller,
        next_phase(Phase::Up(n), Event::Status(off), page) == Phase::Up((n - 1) as u32),
        next_phase(Phase::Up(0), Event::Status(off), page) == Phase::Failed(NvmeError::Timeout),
        next_phase(Phase::Controller, Event::Done(Ok(v)), page) == Phase::Namespace,
        namespace_of(page) is Some ==> next_phase(Phase::Namespace, Event::Done(Ok(v)), page) == Phase::MakeCq,
        next_phase(Phase::MakeCq, Event::Done(Ok(v)), page) == Phase::MakeSq,
        next_phase(Phase::MakeSq, Event::Done(Ok(v)), page) == Phase::Ready,
        next_phase(Phase::Controller, Event::Done(Err(x)), page) == Phase::Failed(x),
        next_phase(Phase::Namespace, Event::Done(Err(x)), page) == Phase::Failed(x),
        next_phase(Phase::MakeCq, Event::Done(Err(x)), page) == Phase::Failed(x),
        next_phase(Phase::MakeSq, Event::Done(Err(x)), page) == Phase::Failed(x),
{
}

} // verus!
