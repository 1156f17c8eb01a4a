//! Local APIC timer and I/O APIC routing.
use vstd::prelude::*;

use crate::arch::acpi::IrqOverride;

verus! {

pub const LAPIC_ID: u32 = 0x020;

pub const LAPIC_TPR: u32 = 0x080;

pub const LAPIC_EOI: u32 = 0x0B0;

pub const LAPIC_SVR: u32 = 0x0F0;

pub const LAPIC_LVT_TIMER: u32 = 0x320;

pub const LAPIC_TIMER_INIT: u32 = 0x380;

pub const LAPIC_TIMER_CUR: u32 = 0x390;

pub const LAPIC_TIMER_DIV: u32 = 0x3E0;

pub const TIMER_PERIODIC: u32 = 0x2_0000;

pub const LVT_MASKED: u32 = 0x1_0000;

pub const DIV_16: u32 = 3;

pub const SPURIOUS_VECTOR: u8 = 0xFF;

/// Milliseconds the timer is measured for.
pub const CALIBRATE_MS: u32 = 20;

/// A register write of the local APIC.
#[derive(Clone, Copy, Debug, PartialEq, Eq, Structural)]
pub struct Write {
    pub reg: u32,
    pub value: u32,
}

/// The id in the local APIC's id register.
pub fn lapic_id(reg: u32) -> (r: u8)
    ensures
        r == reg / 0x100_0000,
{
    (reg / 0x100_0000) as u8
}

/// Timer ticks per millisecond, from how far the timer counted down while it was
/// measured; never 0.
pub fn ticks_per_ms(elapsed: u32) -> (r: u32)
    ensures
        r == if elapsed / CALIBRATE_MS == 0 {
            1
        } else {
            elapsed / CALIBRATE_MS
        },
        r > 0,
{
    let n: u32 = elapsed / 20;
    if n == 0 {
        1
    } else {
        n
    }
}

/// Timer ticks between two interrupts; never 0 unless the number does not fit the
/// register, which then holds its low 32 bits.
pub open spec fn timer_count_of(per_ms: u32, hz: u32) -> int {
    let n = (per_ms * 1000) / (hz as int);
    (if n == 0 {
        1
    } else {
        n
    }) % 0x1_0000_0000
}

pub fn timer_count(per_ms: u32, hz: u32) -> (r: u32)
    requires
        hz > 0,
    ensures
        r == timer_count_of(per_ms, hz),
{
    let n: u64 = per_ms as u64 * 1000 / (hz as u64);
    let m: u64 = if n == 0 {
        1
    } else {
        n
    };
    (m % 0x1_0000_0000) as u32
}

/// At a thousand interrupts a second the timer counts a millisecond.
pub proof fn lemma_millisecond(per_ms: u32)
    requires
        per_ms > 0,
    ensures
        timer_count_of(per_ms, 1000) == per_ms,
{
}

/// How a periodic timer interrupt is started.
pub fn start_timer(vector: u8, per_ms: u32, hz: u32) -> (r: [Write; 3])
    requires
        hz > 0,
    ensures
        r@ == seq![
            Write { reg: LAPIC_TIMER_DIV, value: DIV_16 },
            Write { reg: LAPIC_LVT_TIMER, value: (TIMER_PERIODIC + vector) as u32 },
            Write { reg: LAPIC_TIMER_INIT, value: timer_count_of(per_ms, hz) as u32 },
        ],
{
    let r: [Write; 3] = [
        Write { reg: LAPIC_TIMER_DIV, value: DIV_16 },
        Write { reg: LAPIC_LVT_TIMER, value: TIMER_PERIODIC + vector as u32 },
        Write { reg: LAPIC_TIMER_INIT, value: timer_count(per_ms, hz) },
    ];
    assert(r@ =~= seq![
        Write { reg: LAPIC_TIMER_DIV, value: DIV_16 },
        Write { reg: LAPIC_LVT_TIMER, value: (TIMER_PERIODIC + vector) as u32 },
        Write { reg: LAPIC_TIMER_INIT, value: timer_count_of(per_ms, hz) as u32 },
    ]);
    r
}

/// An I/O APIC: the interrupts it takes.
#[derive(Clone, Copy, Debug, PartialEq, Eq, Structural)]
pub struct IoApic {
    pub gsi_base: u32,
    pub entries: u32,
}

impl IoApic {
    pub open spec fn takes(self, gsi: u32) -> bool {
        self.gsi_base <= gsi < self.gsi_base + self.entries
    }
}

/// Redirection entries, by the version register.
pub fn redirections(version: u32) -> (r: u32)
    ensures
        r == version / 0x1_0000 % 0x100 + 1,
{
    version / 0x1_0000 % 0x100 + 1
}

/// The registers of redirection entry `index`: its low and its high half.
pub fn redirect_regs(index: u32) -> (r: (u32, u32))
    requires
        index < 256,
    ensures
        r == ((0x10 + index * 2) as u32, (0x11 + index * 2) as u32),
{
    (0x10 + index * 2, 0x11 + index * 2)
}

/// The writes that mask every redirection entry, one entry after the other, the
/// high half first.
pub open spec fn masking(entries: u32) -> Seq<Write> {
    Seq::new(
        (2 * entries) as nat,
        |k: int|
            if k % 2 == 0 {
                Write { reg: (0x11 + k / 2 * 2) as u32, value: 0 }
            } else {
                Write { reg: (0x10 + k / 2 * 2) as u32, value: LVT_MASKED }
            },
    )
}

/// Take an I/O APIC whose inputs start at `gsi_base` into service: how many
/// entries it has, by its version register, and what to write to it first.
pub fn init_ioapic(gsi_base: u32, version: u32) -> (r: (IoApic, Vec<Write>))
    ensures
        r.0 == (IoApic { gsi_base, entries: (version / 0x1_0000 % 0x100 + 1) as u32 }),
        r.1@ == masking(r.0.entries),
{
    let entries: u32 = redirections(version);
    let mut out: Vec<Write> = Vec::new();
    let mut i: u32 = 0;
    assert(out@ =~= masking(entries).take(0));
    while i < entries
        invariant
            i <= entries <= 256,
            out@ == masking(entries).take(2 * i),
        decreases entries - i,
    {
        let (low, high) = redirect_regs(i);
        out.push(Write { reg: high, value: 0 });
        out.push(Write { reg: low, value: LVT_MASKED });
        i = i + 1;
        assert(out@ =~= masking(entries).take(2 * i));
    }
    assert(masking(entries).take(2 * entries) =~= masking(entries));
    (IoApic { gsi_base, entries }, out)
}

/// Where an interrupt line goes.
#[derive(Clone, Copy, Debug, PartialEq, Eq, Structural)]
pub struct Route {
    /// The I/O APIC that takes the line, and its redirection entry.
    pub ioapic: usize,
    pub index: u32,
    pub low: u32,
    pub high: u32,
    pub gsi: u32,
    pub level: bool,
}

/// The override for an ISA line, from number `i` on.
pub open spec fn override_for(overrides: Seq<IrqOverride>, irq: u8, i: int) -> Option<IrqOverride>
    decreases overrides.len() - i,
{
    if i >= overrides.len() {
        None
    } else if overrides[i].isa_irq == irq {
        Some(overrides[i])
    } else {
        override_for(overrides, irq, i + 1)
    }
}

/// The first I/O APIC from number `i` on that takes an interrupt, or the length.
pub open spec fn taker(ioapics: Seq<IoApic>, gsi: u32, i: int) -> int
    decreases ioapics.len() - i,
{
    if i >= ioapics.len() {
        ioapics.len() as int
    } else if ioapics[i].takes(gsi) {
        i
    } else {
        taker(ioapics, gsi, i + 1)
    }
}

/// The route of a legacy ISA line to `vector` on the CPU with local APIC
/// `lapic`, honouring the overrides. There is none if no I/O APIC takes the
/// line.
pub open spec fn isa_route(
    irq: u8,
    vector: u8,
    lapic: u8,
    overrides: Seq<IrqOverride>,
    ioapics: Seq<IoApic>,
) -> Option<Route> {
    let o = override_for(overrides, irq, 0);
    let gsi = match o {
        Some(x) => x.gsi,
        None => irq as u32,
    };
    let low_active = o matches Some(x) && x.active_low;
    let level = o matches Some(x) && x.level_triggered;
    let k = taker(ioapics, gsi, 0);
    if k < ioapics.len() {
        Some(
            Route {
                ioapic: k as usize,
                index: (gsi - ioapics[k].gsi_base) as u32,
                low: (vector + (if low_active {
                    0x2000int
                } else {
                    0
                }) + (if level {
                    0x8000int
                } else {
                    0
                })) as u32,
                high: (lapic * 0x100_0000) as u32,
                gsi,
                level,
            },
        )
    } else {
        None
    }
}

pub fn route_isa_irq(irq: u8, vector: u8, lapic: u8, overrides: &[IrqOverride], ioapics: &[IoApic]) -> (r: Option<
    Route,
>)
    ensures
        r == isa_route(irq, vector, lapic, overrides@, ioapics@),
{
    let mut gsi: u32 = irq as u32;
    let mut low: u32 = vector as u32;
    let mut level: bool = false;
    let mut i: usize = 0;
    let mut searching: bool = true;
    let ghost o = override_for(overrides@, irq, 0);
    while i < overrides.len() && searching
        invariant
            i <= overrides@.len(),
            o == override_for(overrides@, irq, 0),
            searching ==> o == override_for(overrides@, irq, i as int) && gsi == irq && low == vector
                && !level,
            !searching ==> (o matches Some(x) && gsi == x.gsi && level == x.level_triggered && low
                == vector + (if x.active_low {
                0x2000int
            } else {
                0
            }) + (if x.level_triggered {
                0x8000int
            } else {
                0
            })),
        decreases overrides@.len() - i + (if searching {
            1int
        } else {
            0int
        }),
    {
        let x: IrqOverride = overrides[i];
        if x.isa_irq == irq {
            gsi = x.gsi;
            if x.active_low {
                low = low + 0x2000;
            }
            if x.level_triggered {
                low = low + 0x8000;
                level = true;
            }
            searching = false;
        } else {
            i = i + 1;
        }
    }
    let mut k: usize = 0;
    while k < ioapics.len()
        invariant
            k <= ioapics@.len(),
            taker(ioapics@, gsi, 0) == taker(ioapics@, gsi, k as int),
            isa_route(irq, vector, lapic, overrides@, ioapics@) == {
                let t = taker(ioapics@, gsi, 0);
                if t < ioapics@.len() {
                    Some(
                        Route {
                            ioapic: t as usize,
                            index: (gsi - ioapics@[t].gsi_base) as u32,
                            low,
                            high: (lapic * 0x100_0000) as u32,
                            gsi,
                            level,
                        },
                    )
                } else {
                    None
                }
            },
        decreases ioapics@.len() - k,
    {
        let a: IoApic = ioapics[k];
        if a.gsi_base <= gsi && (gsi as u64) < a.gsi_base as u64 + a.entries as u64 {
            return Some(
                Route {
                    ioapic: k,
                    index: gsi - a.gsi_base,
                    low,
                    high: lapic as u32 * 0x100_0000,
                    gsi,
                    level,
                },
            );
        }
        k = k + 1;
    }
    None
}

/// So many counts lie between two interrupts that `hz` times as many take a second,
/// and one more would take longer.
pub proof fn lemma_timer_rate(per_ms: u32, hz: u32)
    requires
        hz > 0,
        hz <= per_ms * 1000,
        per_ms * 1000 < 0x1_0000_0000 * hz,
    ensures
        timer_count_of(per_ms, hz) * hz <= per_ms * 1000,
        per_ms * 1000 < (timer_count_of(per_ms, hz) + 1) * hz,
{
    let a = per_ms * 1000;
    let h = hz as int;
    let q = a / h;
    vstd::arithmetic::div_mod::lemma_fundamental_div_mod(a, h);
    vstd::arithmetic::div_mod::lemma_mod_bound(a, h);
    assert(h * q == q * h && (q + 1) * h == q * h + h) by (nonlinear_arith);
    assert(q >= 1) by (nonlinear_arith)
        requires
            q * h + a % h == a,
            a >= h,
            a % h < h,
    ;
    assert(q < 0x1_0000_0000) by (nonlinear_arith)
        requires
            q * h <= a,
            a < 0x1_0000_0000 * h,
            h > 0,
    ;
}

/// Every redirection entry is masked, and none but those that there are.
pub proof fn lemma_all_masked(entries: u32, i: int)
    requires
        0 <= i < entries <= 256,
    ensures
        masking(entries).len() == 2 * entries,
        masking(entries)[2 * i] == (Write { reg: (0x11 + 2 * i) as u32, value: 0 }),
        masking(entries)[2 * i + 1] == (Write { reg: (0x10 + 2 * i) as u32, value: 0x1_0000 }),
{
}

proof fn lemma_override(overrides: Seq<IrqOverride>, irq: u8, i: int, j: int)
    requires
        0 <= i <= j <= overrides.len(),
        forall|k: int| i <= k < j ==> (#[trigger] overrides[k]).isa_irq != irq,
    ensures
        j == overrides.len() ==> override_for(overrides, irq, i) is None,
        j < overrides.len() && overrides[j].isa_irq == irq ==> override_for(overrides, irq, i) == Some(overrides[j]),
    decreases j - i,
{
    if i < j {
        assert(overrides[i].isa_irq != irq);
        lemma_override(overrides, irq, i + 1, j);
    }
}

proof fn lemma_taker(ioapics: Seq<IoApic>, gsi: u32, i: int)
    requires
        0 <= i <= ioapics.len(),
    ensures
        i <= taker(ioapics, gsi, i) <= ioapics.len(),
        taker(ioapics, gsi, i) < ioapics.len() ==> ioapics[taker(ioapics, gsi, i)].takes(gsi),
        forall|k: int| i <= k < taker(ioapics, gsi, i) ==> !(#[trigger] ioapics[k]).takes(gsi),
    decreases ioapics.len() - i,
{
    if i < ioapics.len() && !ioapics[i].takes(gsi) {
        lemma_taker(ioapics, gsi, i + 1);
    }
}

/// A line without an override goes to the input of its own number, as a rising
/// edge; one with an override to the input and in the form that the first one
/// says. It goes to the first controller that has the input, and to the CPU asked
/// for.
pub proof fn lemma_isa_route(
    irq: u8,
    vector: u8,
    lapic: u8,
    overrides: Seq<IrqOverride>,
    ioapics: Seq<IoApic>,
    j: int,
    a: int,
)
    requires
        0 <= j <= overrides.len(),
        forall|k: int| 0 <= k < j ==> (#[trigger] overrides[k]).isa_irq != irq,
        j < overrides.len() ==> overrides[j].isa_irq == irq,
        ioapics.len() <= usize::MAX,
    ensures
        ({
            let r = isa_route(irq, vector, lapic, overrides, ioapics);
            let gsi = if j < overrides.len() {
                overrides[j].gsi
            } else {
                irq as u32
            };
            let low = j < overrides.len() && overrides[j].active_low;
            let level = j < overrides.len() && overrides[j].level_triggered;
            &&& r is None ==> (0 <= a < ioapics.len() ==> !(ioapics[a].gsi_base <= gsi < ioapics[a].gsi_base
                + ioapics[a].entries))
            &&& r matches Some(w) ==> {
                let c = ioapics[w.ioapic as int];
                &&& w.ioapic < ioapics.len()
                &&& c.gsi_base <= gsi < c.gsi_base + c.entries
                &&& 0 <= a < w.ioapic ==> !(ioapics[a].gsi_base <= gsi < ioapics[a].gsi_base + ioapics[a].entries)
                &&& w.gsi == gsi
                &&& w.index == gsi - c.gsi_base
                &&& w.low % 0x100 == vector
                &&& w.low / 0x2000 % 2 == 1 <==> low
                &&& w.low / 0x8000 % 2 == 1 <==> level
                &&& w.low / 0x1_0000 == 0
                &&& w.level == level
                &&& w.high / 0x100_0000 == lapic
                &&& w.high % 0x100_0000 == 0
            }
        }),
{
    lemma_override(overrides, irq, 0, j);
    let gsi = if j < overrides.len() {
        overrides[j].gsi
    } else {
        irq as u32
    };
    lemma_taker(ioapics, gsi, 0);
}

} // verus!
