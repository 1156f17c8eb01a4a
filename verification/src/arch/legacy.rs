//! The legacy devices: interrupt controller pair, interval timer, serial port,
//! and the exit device of the emulator.
use vstd::prelude::*;
use vstd::string::*;

verus! {

pub const PIC1_CMD: u16 = 0x20;

pub const PIC1_DATA: u16 = 0x21;

pub const PIC2_CMD: u16 = 0xA0;

pub const PIC2_DATA: u16 = 0xA1;

pub const EOI: u8 = 0x20;

pub const COM1: u16 = 0x3F8;

/// Ticks of the interval timer per second.
pub const BASE_HZ: u32 = 1_193_182;

/// Timer interrupts per second.
pub const TIMER_HZ: u32 = 1000;

/// A byte for a port.
#[derive(Clone, Copy, Debug, PartialEq, Eq, Structural)]
pub struct Out {
    pub port: u16,
    pub value: u8,
}

/// How the interrupt controllers are set up: their lines go to the vectors from
/// `offset` on, cascaded over line 2, and all lines are masked at the end.
pub fn pic_init(offset: u8) -> (r: [Out; 10])
    requires
        offset <= 247,
    ensures
        r@ == seq![
            Out { port: PIC1_CMD, value: 0x11 },
            Out { port: PIC2_CMD, value: 0x11 },
            Out { port: PIC1_DATA, value: offset },
            Out { port: PIC2_DATA, value: (offset + 8) as u8 },
            Out { port: PIC1_DATA, value: 4 },
            Out { port: PIC2_DATA, value: 2 },
            Out { port: PIC1_DATA, value: 1 },
            Out { port: PIC2_DATA, value: 1 },
            Out { port: PIC1_DATA, value: 0xFF },
            Out { port: PIC2_DATA, value: 0xFF },
        ],
{
    let r: [Out; 10] = [
        Out { port: PIC1_CMD, value: 0x11 },
        Out { port: PIC2_CMD, value: 0x11 },
        Out { port: PIC1_DATA, value: offset },
        Out { port: PIC2_DATA, value: offset + 8 },
        Out { port: PIC1_DATA, value: 4 },
        Out { port: PIC2_DATA, value: 2 },
        Out { port: PIC1_DATA, value: 1 },
        Out { port: PIC2_DATA, value: 1 },
        Out { port: PIC1_DATA, value: 0xFF },
        Out { port: PIC2_DATA, value: 0xFF },
    ];
    assert(r@ =~= seq![
        Out { port: PIC1_CMD, value: 0x11 },
        Out { port: PIC2_CMD, value: 0x11 },
        Out { port: PIC1_DATA, value: offset },
        Out { port: PIC2_DATA, value: (offset + 8) as u8 },
        Out { port: PIC1_DATA, value: 4 },
        Out { port: PIC2_DATA, value: 2 },
        Out { port: PIC1_DATA, value: 1 },
        Out { port: PIC2_DATA, value: 1 },
        Out { port: PIC1_DATA, value: 0xFF },
        Out { port: PIC2_DATA, value: 0xFF },
    ]);
    r
}

/// The bits of a mask as they are numbered.
pub open spec fn masked(mask: u8, line: u8) -> bool {
    (mask >> line) & 1 == 1
}

/// A mask with one line let through and every other one as it was.
pub fn unmasked(mask: u8, line: u8) -> (r: u8)
    requires
        line < 8,
    ensures
        forall|k: u8| k < 8 ==> #[trigger] masked(r, k) == (masked(mask, k) && k != line),
{
    let r: u8 = mask & !(1u8 << line);
    assert forall|k: u8| k < 8 implies #[trigger] masked(r, k) == (masked(mask, k) && k != line) by {
        assert(((mask & !(1u8 << line)) >> k) & 1 == 1 <==> ((mask >> k) & 1 == 1 && k != line)) by (
        bit_vector)
            requires
                k < 8,
                line < 8,
        ;
    }
    r
}

/// The mask register and the line within it for an interrupt line. Lines from 8
/// on also need line 2 of the first controller.
pub fn pic_line(irq: u8) -> (r: (u16, u8))
    requires
        irq < 16,
    ensures
        r == if irq < 8 {
            (PIC1_DATA, irq)
        } else {
            (PIC2_DATA, (irq - 8) as u8)
        },
{
    if irq < 8 {
        (PIC1_DATA, irq)
    } else {
        (PIC2_DATA, irq - 8)
    }
}

/// The interval timer's divisor for a frequency, and its two bytes.
pub fn pit_divisor(hz: u32) -> (r: (u16, u8, u8))
    requires
        hz > 0,
    ensures
        ({
            let d = BASE_HZ / hz;
            &&& r.0 == if d < 1 {
                1
            } else if d > 65535 {
                65535
            } else {
                d
            }
            &&& r.1 + r.2 * 256 == r.0
        }),
{
    let d: u32 = BASE_HZ / hz;
    let n: u16 = if d < 1 {
        1
    } else if d > 65535 {
        65535
    } else {
        d as u16
    };
    (n, (n % 256) as u8, (n / 256) as u8)
}

/// How the serial port is set up: no interrupts, 115200 baud, 8N1, FIFO.
pub fn serial_init() -> (r: [Out; 7])
    ensures
        r@ == seq![
            Out { port: (COM1 + 1) as u16, value: 0x00 },
            Out { port: (COM1 + 3) as u16, value: 0x80 },
            Out { port: COM1, value: 0x01 },
            Out { port: (COM1 + 1) as u16, value: 0x00 },
            Out { port: (COM1 + 3) as u16, value: 0x03 },
            Out { port: (COM1 + 2) as u16, value: 0xC7 },
            Out { port: (COM1 + 4) as u16, value: 0x0B },
        ],
{
    let r: [Out; 7] = [
        Out { port: COM1 + 1, value: 0x00 },
        Out { port: COM1 + 3, value: 0x80 },
        Out { port: COM1, value: 0x01 },
        Out { port: COM1 + 1, value: 0x00 },
        Out { port: COM1 + 3, value: 0x03 },
        Out { port: COM1 + 2, value: 0xC7 },
        Out { port: COM1 + 4, value: 0x0B },
    ];
    assert(r@ =~= seq![
        Out { port: (COM1 + 1) as u16, value: 0x00 },
        Out { port: (COM1 + 3) as u16, value: 0x80 },
        Out { port: COM1, value: 0x01 },
        Out { port: (COM1 + 1) as u16, value: 0x00 },
        Out { port: (COM1 + 3) as u16, value: 0x03 },
        Out { port: (COM1 + 2) as u16, value: 0xC7 },
        Out { port: (COM1 + 4) as u16, value: 0x0B },
    ]);
    r
}

/// Text as it goes over the serial line: a carriage return before every line
/// feed.
pub open spec fn serial_text(s: Seq<u8>) -> Seq<u8>
    decreases s.len(),
{
    if s.len() == 0 {
        Seq::empty()
    } else if s.last() == 0x0A {
        serial_text(s.drop_last()).push(0x0D).push(0x0A)
    } else {
        serial_text(s.drop_last()).push(s.last())
    }
}

pub fn serial_bytes(s: &str) -> (r: Vec<u8>)
    ensures
        r@ == serial_text(s.spec_bytes()),
{
    let b: &[u8] = s.as_bytes();
    let mut out: Vec<u8> = Vec::new();
    let mut i: usize = 0;
    assert(b@.take(0) =~= Seq::empty());
    while i < b.len()
        invariant
            i <= b@.len(),
            out@ == serial_text(b@.take(i as int)),
        decreases b@.len() - i,
    {
        if b[i] == 0x0A {
            out.push(0x0D);
        }
        out.push(b[i]);
        assert(b@.take(i + 1).drop_last() =~= b@.take(i as int));
        i = i + 1;
    }
    assert(b@.take(i as int) =~= b@);
    out
}

/// Milliseconds since boot, by the timer's ticks.
pub fn uptime_ms(ticks: u64) -> (r: u64)
    requires
        ticks <= u64::MAX / 1000,
    ensures
        r == ticks,
{
    ticks * 1000 / 1000
}

/// The tick count after a timer interrupt: only the first CPU advances time.
pub fn on_timer(ticks: u64, cpu: u32) -> (r: u64)
    requires
        ticks < u64::MAX,
    ensures
        r == if cpu == 0 {
            (ticks + 1) as u64
        } else {
            ticks
        },
{
    if cpu == 0 {
        ticks + 1
    } else {
        ticks
    }
}

/// CPUs the kernel can use.
pub const MAX_CPUS: usize = 64;

/// How long the start of a CPU is waited for.
pub const START_SPINS: u64 = 200_000_000;

/// A CPU to start: its number and its local APIC.
#[derive(Clone, Copy, Debug, PartialEq, Eq, Structural)]
pub struct Ap {
    pub cpu_id: u32,
    pub lapic_id: u32,
}

/// The CPUs to start: every one but the first, numbered from 1 in the order they
/// are reported, as far as the kernel has room.
pub open spec fn aps(lapics: Seq<u32>, bsp: u32) -> Seq<Ap>
    decreases lapics.len(),
{
    if lapics.len() == 0 {
        Seq::empty()
    } else {
        let before = aps(lapics.drop_last(), bsp);
        if lapics.last() == bsp || before.len() + 1 >= MAX_CPUS {
            before
        } else {
            before.push(Ap { cpu_id: (before.len() + 1) as u32, lapic_id: lapics.last() })
        }
    }
}

pub fn start_list(lapics: &[u32], bsp: u32) -> (r: Vec<Ap>)
    ensures
        r@ == aps(lapics@, bsp),
        r@.len() < MAX_CPUS,
{
    let mut out: Vec<Ap> = Vec::new();
    let mut i: usize = 0;
    assert(lapics@.take(0) =~= Seq::empty());
    while i < lapics.len()
        invariant
            i <= lapics@.len(),
            out@ == aps(lapics@.take(i as int), bsp),
            out@.len() < MAX_CPUS,
        decreases lapics@.len() - i,
    {
        assert(lapics@.take(i + 1).drop_last() =~= lapics@.take(i as int));
        if lapics[i] != bsp && out.len() + 1 < MAX_CPUS {
            out.push(Ap { cpu_id: (out.len() + 1) as u32, lapic_id: lapics[i] });
        }
        i = i + 1;
    }
    assert(lapics@.take(i as int) =~= lapics@);
    out
}

/// Every CPU that is started has a number of its own, from 1 on.
pub proof fn lemma_cpu_numbers(lapics: Seq<u32>, bsp: u32, i: int)
    requires
        0 <= i < aps(lapics, bsp).len(),
    ensures
        aps(lapics, bsp)[i].cpu_id == i + 1,
        aps(lapics, bsp)[i].lapic_id != bsp,
        aps(lapics, bsp).len() < MAX_CPUS,
    decreases lapics.len(),
{
    if lapics.len() > 0 {
        let before = aps(lapics.drop_last(), bsp);
        if i < before.len() {
            lemma_cpu_numbers(lapics.drop_last(), bsp, i);
        }
    }
}

/// Text goes out byte by byte, with a carriage return before every line feed and
/// nothing else added.
pub proof fn lemma_serial(s: Seq<u8>, b: u8)
    ensures
        serial_text(Seq::empty()).len() == 0,
        b == 0x0A ==> serial_text(s.push(b)) == serial_text(s) + seq![0x0Du8, 0x0A],
        b != 0x0A ==> serial_text(s.push(b)) == serial_text(s) + seq![b],
{
    assert(s.push(b).drop_last() =~= s);
    if b == 0x0A {
        assert(serial_text(s.push(b)) =~= serial_text(s) + seq![0x0Du8, 0x0A]);
    } else {
        assert(serial_text(s.push(b)) =~= serial_text(s) + seq![b]);
    }
}

/// Every CPU but the first is started, in the order of the report, up to 63 of
/// them.
pub proof fn lemma_all_started(lapics: Seq<u32>, bsp: u32, l: u32)
    ensures
        aps(Seq::empty(), bsp).len() == 0,
        l == bsp ==> aps(lapics.push(l), bsp) == aps(lapics, bsp),
        l != bsp && aps(lapics, bsp).len() < 63 ==> {
            let all = aps(lapics.push(l), bsp);
            &&& all.len() == aps(lapics, bsp).len() + 1
            &&& all.drop_last() == aps(lapics, bsp)
            &&& all.last().lapic_id == l
            &&& all.last().cpu_id == all.len()
        },
        aps(lapics, bsp).len() >= 63 ==> aps(lapics.push(l), bsp) == aps(lapics, bsp),
{
    assert(lapics.push(l).drop_last() =~= lapics);
    if l != bsp && aps(lapics, bsp).len() < 63 {
        assert(aps(lapics.push(l), bsp).drop_last() =~= aps(lapics, bsp));
    }
}

/// A line is masked while its bit is set: with all bits set every line is, with
/// none no line is, and setting or clearing one bit is about that line alone.
pub proof fn lemma_mask_lines(mask: u8, line: u8, k: u8)
    requires
        line < 8,
        k < 8,
    ensures
        masked(0xFF, k),
        !masked(0, k),
        masked(mask | (1u8 << line), k) <==> masked(mask, k) || k == line,
        masked(mask & !(1u8 << line), k) <==> masked(mask, k) && k != line,
{
    assert((0xFFu8 >> k) & 1 == 1 && (0u8 >> k) & 1 == 0) by (bit_vector)
        requires
            k < 8,
    ;
    assert((((mask | (1u8 << line)) >> k) & 1 == 1 <==> ((mask >> k) & 1 == 1 || k == line)) && (((mask & !(1u8
        << line)) >> k) & 1 == 1 <==> ((mask >> k) & 1 == 1 && k != line))) by (bit_vector)
        requires
            k < 8,
            line < 8,
    ;
}

} // verus!
