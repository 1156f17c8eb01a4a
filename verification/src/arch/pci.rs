//! PCI configuration space: addresses, the scan for functions, and what drivers
//! are told of a device.
use vstd::prelude::*;
use vstd::string::*;

use crate::rt::calls;
use crate::rt::calls::{Bar, DevInfo};

verus! {

#[derive(Clone, Copy, Debug, PartialEq, Eq, Structural)]
pub struct PciDevice {
    pub bus: u8,
    pub slot: u8,
    pub func: u8,
    pub vendor: u16,
    pub device: u16,
    pub class: u8,
    pub subclass: u8,
}

impl PciDevice {
    /// The place of the function among all functions.
    pub open spec fn place(self) -> int {
        place_of(self.bus as int, self.slot as int, self.func as int)
    }
}

pub open spec fn place_of(bus: int, slot: int, func: int) -> int {
    bus * 256 + slot * 8 + func
}

/// The address of a configuration register.
pub fn config_address(bus: u8, slot: u8, func: u8, off: u8) -> (r: u32)
    requires
        slot < 32,
        func < 8,
    ensures
        r == 0x8000_0000 + bus * 0x1_0000 + slot * 0x800 + func * 0x100 + (off - off % 4),
{
    0x8000_0000u32 + bus as u32 * 0x1_0000 + slot as u32 * 0x800 + func as u32 * 0x100 + (off - off % 4) as u32
}

/// What the scan reads next.
#[derive(Clone, Copy, Debug, PartialEq, Eq, Structural)]
pub enum Want {
    /// Vendor and device.
    Id,
    /// The class, of a function with this id.
    Class(u32),
    /// Whether a device has more functions than one.
    Header,
    /// Nothing more.
    Finished,
}

/// A scan of all buses, in order.
pub struct Scan {
    pub bus: u8,
    pub slot: u8,
    pub func: u8,
    pub want: Want,
    /// Whether the bus has any device so far.
    pub any: bool,
    pub list: Vec<PciDevice>,
}

#[verifier::ext_equal]
pub struct ScanView {
    pub bus: u8,
    pub slot: u8,
    pub func: u8,
    pub want: Want,
    pub any: bool,
    pub list: Seq<PciDevice>,
}

impl View for Scan {
    type V = ScanView;

    open spec fn view(&self) -> ScanView {
        ScanView {
            bus: self.bus,
            slot: self.slot,
            func: self.func,
            want: self.want,
            any: self.any,
            list: self.list@,
        }
    }
}

/// On to the next slot, or the next bus. Buses after an empty one past the eighth
/// are not looked at.
pub open spec fn next_slot(s: ScanView) -> ScanView {
    if s.slot < 31 {
        ScanView { slot: (s.slot + 1) as u8, func: 0, want: Want::Id, ..s }
    } else if s.bus == 255 || (!s.any && s.bus > 8) {
        ScanView { want: Want::Finished, ..s }
    } else {
        ScanView { bus: (s.bus + 1) as u8, slot: 0, func: 0, want: Want::Id, any: false, ..s }
    }
}

pub open spec fn next_func(s: ScanView) -> ScanView {
    if s.func < 7 {
        ScanView { func: (s.func + 1) as u8, want: Want::Id, ..s }
    } else {
        next_slot(s)
    }
}

/// The scan after the register it wanted was read.
pub open spec fn scanned(s: ScanView, value: u32) -> ScanView {
    match s.want {
        Want::Id => if value % 0x1_0000 == 0xFFFF {
            if s.func == 0 {
                next_slot(s)
            } else {
                next_func(s)
            }
        } else {
            ScanView { want: Want::Class(value), ..s }
        },
        Want::Class(id) => {
            let d = PciDevice {
                bus: s.bus,
                slot: s.slot,
                func: s.func,
                vendor: (id % 0x1_0000) as u16,
                device: (id / 0x1_0000) as u16,
                class: (value / 0x100_0000) as u8,
                subclass: (value / 0x1_0000 % 0x100) as u8,
            };
            let t = ScanView { list: s.list.push(d), ..s };
            if s.func == 0 {
                ScanView { any: true, want: Want::Header, ..t }
            } else {
                next_func(t)
            }
        },
        Want::Header => if value / 0x80_0000 % 2 == 1 {
            ScanView { func: 1, want: Want::Id, ..s }
        } else {
            next_slot(s)
        },
        Want::Finished => s,
    }
}

/// A scan lists every function at most once, in the order of their places, and
/// only functions it has come past.
pub open spec fn in_order(s: ScanView) -> bool {
    let here = place_of(s.bus as int, s.slot as int, s.func as int);
    &&& s.slot < 32
    &&& s.func < 8
    &&& s.want is Header ==> s.func == 0
    &&& forall|i: int, j: int|
        #![trigger s.list[i], s.list[j]]
        0 <= i < j < s.list.len() ==> s.list[i].place() < s.list[j].place()
    &&& forall|i: int|
        0 <= i < s.list.len() ==> (#[trigger] s.list[i]).place() < here || (s.list[i].place() == here && (
        s.want is Header || s.want is Finished))
    &&& forall|i: int| 0 <= i < s.list.len() ==> (#[trigger] s.list[i]).slot < 32 && s.list[i].func < 8
}

impl Scan {
    pub open spec fn wf(&self) -> bool {
        in_order(self@)
    }

    pub fn new() -> (r: Self)
        ensures
            r.wf(),
            r@ == (ScanView {
                bus: 0,
                slot: 0,
                func: 0,
                want: Want::Id,
                any: false,
                list: Seq::empty(),
            }),
    {
        let r: Scan = Scan {
            bus: 0,
            slot: 0,
            func: 0,
            want: Want::Id,
            any: false,
            list: Vec::new(),
        };
        assert(r.list@ =~= Seq::empty());
        r
    }

    /// The address of the register to read next; `None` when the scan is over.
    pub fn next(&self) -> (r: Option<u32>)
        requires
            self.wf(),
        ensures
            r is None <==> self.want is Finished,
            r matches Some(a) ==> a == 0x8000_0000 + self.bus * 0x1_0000 + self.slot * 0x800 + self.func
                * 0x100 + match self.want {
                Want::Id => 0int,
                Want::Class(_) => 8,
                _ => 12,
            },
    {
        match self.want {
            Want::Id => Some(config_address(self.bus, self.slot, self.func, 0)),
            Want::Class(_) => Some(config_address(self.bus, self.slot, self.func, 8)),
            Want::Header => Some(config_address(self.bus, self.slot, self.func, 12)),
            Want::Finished => None,
        }
    }

    fn step_slot(&mut self)
        requires
            old(self).slot < 32,
        ensures
            final(self)@ == next_slot(old(self)@),
    {
        if self.slot < 31 {
            self.slot = self.slot + 1;
            self.func = 0;
            self.want = Want::Id;
        } else if self.bus == 255 || (!self.any && self.bus > 8) {
            self.want = Want::Finished;
        } else {
            self.bus = self.bus + 1;
            self.slot = 0;
            self.func = 0;
            self.want = Want::Id;
            self.any = false;
        }
    }

    fn step_func(&mut self)
        requires
            old(self).slot < 32,
            old(self).func < 8,
        ensures
            final(self)@ == next_func(old(self)@),
    {
        if self.func < 7 {
            self.func = self.func + 1;
            self.want = Want::Id;
        } else {
            self.step_slot();
        }
    }

    /// The register that was wanted has this value.
    pub fn feed(&mut self, value: u32)
        requires
            old(self).wf(),
        ensures
            final(self).wf(),
            final(self)@ == scanned(old(self)@, value),
    {
        match self.want {
            Want::Id => if value % 0x1_0000 == 0xFFFF {
                if self.func == 0 {
                    self.step_slot();
                } else {
                    self.step_func();
                }
            } else {
                self.want = Want::Class(value);
            },
            Want::Class(id) => {
                let d: PciDevice = PciDevice {
                    bus: self.bus,
                    slot: self.slot,
                    func: self.func,
                    vendor: (id % 0x1_0000) as u16,
                    device: (id / 0x1_0000) as u16,
                    class: (value / 0x100_0000) as u8,
                    subclass: (value / 0x1_0000 % 0x100) as u8,
                };
                self.list.push(d);
                if self.func == 0 {
                    self.any = true;
                    self.want = Want::Header;
                } else {
                    self.step_func();
                }
            },
            Want::Header => if value / 0x80_0000 % 2 == 1 {
                self.func = 1;
                self.want = Want::Id;
            } else {
                self.step_slot();
            },
            Want::Finished => {},
        }
    }
}

/// How many registers the scan reads at most before it is over, from a state on:
/// every function is looked at once, with up to three registers.
pub open spec fn left(s: ScanView) -> int {
    match s.want {
        Want::Finished => 0,
        Want::Id => 3 * (65536 - place_of(s.bus as int, s.slot as int, s.func as int)),
        Want::Class(_) => 3 * (65536 - place_of(s.bus as int, s.slot as int, s.func as int)) - 1,
        Want::Header => 3 * (65536 - place_of(s.bus as int, s.slot as int, s.func as int)) - 2,
    }
}

/// The scan comes to an end.
pub proof fn lemma_scan_ends(s: ScanView, value: u32)
    requires
        in_order(s),
        s.want !is Finished,
    ensures
        0 <= left(scanned(s, value)) < left(s),
{
}

/// The first device of a class and subclass from number `i` on.
pub open spec fn of_class(list: Seq<PciDevice>, class: u8, subclass: u8, i: int) -> Option<PciDevice>
    decreases list.len() - i,
{
    if i >= list.len() {
        None
    } else if list[i].class == class && list[i].subclass == subclass {
        Some(list[i])
    } else {
        of_class(list, class, subclass, i + 1)
    }
}

/// The first device of a class and subclass.
pub fn find(list: &[PciDevice], class: u8, subclass: u8) -> (r: Option<PciDevice>)
    ensures
        r == of_class(list@, class, subclass, 0),
{
    let mut i: usize = 0;
    while i < list.len()
        invariant
            i <= list@.len(),
            of_class(list@, class, subclass, 0) == of_class(list@, class, subclass, i as int),
        decreases list@.len() - i,
    {
        if list[i].class == class && list[i].subclass == subclass {
            return Some(list[i]);
        }
        i = i + 1;
    }
    None
}

/// What a class of devices is called.
pub open spec fn class_text(class: u8, sub: u8) -> Seq<char> {
    if class == 0x01 {
        if sub == 0x01 {
            "IDE controller"@
        } else if sub == 0x06 {
            "SATA/AHCI controller"@
        } else if sub == 0x08 {
            "NVMe controller"@
        } else {
            "storage"@
        }
    } else if class == 0x02 {
        if sub == 0x00 {
            "ethernet"@
        } else {
            "network"@
        }
    } else if class == 0x03 {
        "display"@
    } else if class == 0x04 {
        "multimedia"@
    } else if class == 0x05 {
        "memory controller"@
    } else if class == 0x06 {
        if sub == 0x00 {
            "host bridge"@
        } else if sub == 0x01 {
            "ISA bridge"@
        } else if sub == 0x04 {
            "PCI-PCI bridge"@
        } else {
            "bridge"@
        }
    } else if class == 0x0C {
        if sub == 0x03 {
            "USB controller"@
        } else if sub == 0x05 {
            "SMBus"@
        } else {
            "serial bus"@
        }
    } else if class == 0xFF {
        "unassigned"@
    } else {
        "other"@
    }
}

pub fn class_name(class: u8, sub: u8) -> (r: &'static str)
    ensures
        r@ == class_text(class, sub),
{
    match (class, sub) {
        (0x01, 0x01) => "IDE controller",
        (0x01, 0x06) => "SATA/AHCI controller",
        (0x01, 0x08) => "NVMe controller",
        (0x01, _) => "storage",
        (0x02, 0x00) => "ethernet",
        (0x02, _) => "network",
        (0x03, _) => "display",
        (0x04, _) => "multimedia",
        (0x05, _) => "memory controller",
        (0x06, 0x00) => "host bridge",
        (0x06, 0x01) => "ISA bridge",
        (0x06, 0x04) => "PCI-PCI bridge",
        (0x06, _) => "bridge",
        (0x0C, 0x03) => "USB controller",
        (0x0C, 0x05) => "SMBus",
        (0x0C, _) => "serial bus",
        (0xFF, _) => "unassigned",
        _ => "other",
    }
}

/// Whether a driver is told the truth about a device.
pub open spec fn describes(i: DevInfo, d: PciDevice, bars: Seq<Bar>) -> bool {
    &&& i.vendor == d.vendor
    &&& i.device == d.device
    &&& i.class == d.class
    &&& i.subclass == d.subclass
    &&& i.bus == d.bus
    &&& i.slot == d.slot
    &&& i.func == d.func
    &&& i.bars@ == bars
}

/// The fourteen words that describe a device to its driver.
pub open spec fn words_for(w: Seq<u64>, d: PciDevice, bars: Seq<Bar>) -> bool {
    &&& w.len() == 14
    &&& w[0] == d.vendor + d.device * 0x1_0000 + d.class * 0x1_0000_0000 + d.subclass * 0x100_0000_0000
    &&& w[1] == d.func + d.slot * 0x100 + d.bus * 0x1_0000
    &&& forall|k: int|
        0 <= k < 6 ==> w[2 + 2 * k] == (#[trigger] bars[k]).base && w[3 + 2 * k] == bars[k].size + (
        if bars[k].io {
            0x8000_0000_0000_0000int
        } else {
            0
        })
}

/// The window behind a base address register: what it reads, what it reads back
/// after all ones were written to it (the bits that are wired to 0 give the
/// size), and the same of the register after it, which holds the upper half of
/// a 64-bit address. A size that no device can have counts as none.
pub open spec fn window(low: u32, probe: u32, high: u32, high_probe: u32) -> Bar {
    let none = Bar { base: 0, size: 0, io: false };
    if probe == 0 {
        none
    } else if low % 2 == 1 {
        Bar {
            base: (low - low % 4) as u64,
            size: ((0x1_0000 - (probe - probe % 4) % 0x1_0000) % 0x1_0000) as u64,
            io: true,
        }
    } else if is_wide(low) {
        let size = 0x1_0000_0000_0000_0000 - (high_probe * 0x1_0000_0000 + (probe - probe % 16));
        if size < 0x8000_0000_0000_0000 {
            Bar { base: (high * 0x1_0000_0000 + (low - low % 16)) as u64, size: size as u64, io: false }
        } else {
            none
        }
    } else {
        Bar { base: (low - low % 16) as u64, size: (0x1_0000_0000 - (probe - probe % 16)) as u64, io: false }
    }
}

/// Whether a memory register holds the lower half of a 64-bit address.
pub open spec fn is_wide(low: u32) -> bool {
    low % 2 == 0 && low % 8 / 2 == 2
}

/// The window behind a base address register, and whether the register after it
/// belongs to it.
pub fn bar(low: u32, probe: u32, high: u32, high_probe: u32) -> (r: (Bar, bool))
    ensures
        r.0 == window(low, probe, high, high_probe),
        r.0.size < 0x8000_0000_0000_0000,
        r.1 == (probe != 0 && is_wide(low)),
{
    let none: Bar = Bar { base: 0, size: 0, io: false };
    if probe == 0 {
        (none, false)
    } else if low % 2 == 1 {
        let size: u32 = (0x1_0000 - (probe - probe % 4) % 0x1_0000) % 0x1_0000;
        (Bar { base: (low - low % 4) as u64, size: size as u64, io: true }, false)
    } else if low % 8 / 2 == 2 {
        let mask: u64 = high_probe as u64 * 0x1_0000_0000 + (probe - probe % 16) as u64;
        if mask <= 0x8000_0000_0000_0000 {
            return (none, true);
        }
        let base: u64 = high as u64 * 0x1_0000_0000 + (low - low % 16) as u64;
        (Bar { base, size: 0xffff_ffff_ffff_ffff - mask + 1, io: false }, true)
    } else {
        let size: u64 = 0x1_0000_0000 - (probe - probe % 16) as u64;
        (Bar { base: (low - low % 16) as u64, size, io: false }, false)
    }
}

pub fn describe(d: PciDevice, bars: &[Bar; 6]) -> (r: [u64; 14])
    requires
        forall|i: int| 0 <= i < 6 ==> (#[trigger] bars@[i]).size < 0x8000_0000_0000_0000,
    ensures
        words_for(r@, d, bars@),
{
    let mut w: [u64; 14] = [0u64; 14];
    w[0] = d.vendor as u64 + d.device as u64 * 0x1_0000 + d.class as u64 * 0x1_0000_0000 + d.subclass as u64
        * 0x100_0000_0000;
    w[1] = d.func as u64 + d.slot as u64 * 0x100 + d.bus as u64 * 0x1_0000;
    let ghost w01 = (w@[0], w@[1]);
    let mut i: usize = 0;
    while i < 6
        invariant
            i <= 6,
            w01 == (w@[0], w@[1]),
            forall|k: int| 0 <= k < 6 ==> (#[trigger] bars@[k]).size < 0x8000_0000_0000_0000,
            forall|k: int|
                0 <= k < i ==> w@[2 + 2 * k] == (#[trigger] bars@[k]).base && w@[3 + 2 * k] == bars@[k].size
                    + (if bars@[k].io {
                    0x8000_0000_0000_0000int
                } else {
                    0
                }),
        decreases 6 - i,
    {
        let b: Bar = bars[i];
        assert(bars@[i as int].size < 0x8000_0000_0000_0000);
        w[2 + 2 * i] = b.base;
        w[3 + 2 * i] = if b.io {
            b.size + 0x8000_0000_0000_0000
        } else {
            b.size
        };
        i = i + 1;
    }
    w
}

proof fn lemma_parts(w: u64, a: int, b: int, c: int, e: int)
    requires
        0 <= a < 0x1_0000,
        0 <= b < 0x1_0000,
        0 <= c < 0x100,
        0 <= e < 0x100,
        w == a + b * 0x1_0000 + c * 0x1_0000_0000 + e * 0x100_0000_0000,
    ensures
        calls::field(w, 1, 0x1_0000) == a,
        calls::field(w, 0x1_0000, 0x1_0000) == b,
        calls::field(w, 0x1_0000_0000, 0x100) == c,
        calls::field(w, 0x100_0000_0000, 0x100) == e,
{
    assert(w as int / 0x1_0000 == b + c * 0x1_0000 + e * 0x100_0000);
    assert(w as int / 0x1_0000_0000 == c + e * 0x100);
    assert(w as int / 0x100_0000_0000 == e);
}

proof fn lemma_address(w: u64, func: int, slot: int, bus: int)
    requires
        0 <= func < 0x100,
        0 <= slot < 0x100,
        0 <= bus < 0x100,
        w == func + slot * 0x100 + bus * 0x1_0000,
    ensures
        calls::field(w, 1, 0x100) == func,
        calls::field(w, 0x100, 0x100) == slot,
        calls::field(w, 0x1_0000, 0x100) == bus,
{
    assert(w as int / 0x100 == slot + bus * 0x100);
    assert(w as int / 0x1_0000 == bus);
}

/// A driver that reads the description of its device finds the device and its
/// windows.
pub proof fn lemma_described(w: Seq<u64>, d: PciDevice, bars: Seq<Bar>, i: DevInfo)
    requires
        bars.len() == 6,
        forall|k: int| 0 <= k < 6 ==> (#[trigger] bars[k]).size < 0x8000_0000_0000_0000,
        words_for(w, d, bars),
        i.says(w),
    ensures
        describes(i, d, bars),
{
    lemma_parts(w[0], d.vendor as int, d.device as int, d.class as int, d.subclass as int);
    lemma_address(w[1], d.func as int, d.slot as int, d.bus as int);
    assert forall|k: int| 0 <= k < 6 implies i.bars@[k] == bars[k] by {
        let b = bars[k];
        assert(b.size < 0x8000_0000_0000_0000);
        assert(i.bars@[k] == calls::bar_of(w[2 + 2 * k], w[3 + 2 * k]));
    }
    assert(i.bars@ =~= bars);
}

/// A function that answers is listed as what it says it is, at the end; one that
/// does not is passed over.
pub proof fn lemma_function_listed(s: ScanView, id: u32, class: u32)
    requires
        in_order(s),
        s.want == Want::Id,
    ensures
        id % 0x1_0000 == 0xFFFF ==> scanned(s, id).list == s.list,
        id % 0x1_0000 != 0xFFFF ==> {
            let t = scanned(s, id);
            let u = scanned(t, class);
            &&& t.list == s.list
            &&& t.want == Want::Class(id)
            &&& u.list.len() == s.list.len() + 1
            &&& u.list.drop_last() == s.list
            &&& u.list.last().bus == s.bus && u.list.last().slot == s.slot && u.list.last().func == s.func
            &&& u.list.last().vendor + 0x1_0000 * u.list.last().device == id
            &&& u.list.last().class == class / 0x100_0000
            &&& u.list.last().subclass == class / 0x1_0000 % 0x100
        },
{
    if id % 0x1_0000 != 0xFFFF {
        let u = scanned(scanned(s, id), class);
        assert(u.list.drop_last() =~= s.list);
    }
}

/// No function is left out: the further functions of a device are looked at one by
/// one if it has several, and then the next device, up to the last one of the bus
/// and on to the next bus. Only buses after an empty one past the eighth are not.
pub proof fn lemma_scan_order(s: ScanView, value: u32)
    requires
        in_order(s),
    ensures
        s.want == Want::Header && value / 0x80_0000 % 2 == 1 ==> {
            let t = scanned(s, value);
            t.want == Want::Id && t.bus == s.bus && t.slot == s.slot && t.func == 1
        },
        (s.want == Want::Header && value / 0x80_0000 % 2 == 0 || s.want == Want::Id && value % 0x1_0000 == 0xFFFF && (
        s.func == 0 || s.func == 7) || s.want is Class && s.func == 7) ==> {
            let t = scanned(s, value);
            &&& s.slot < 31 ==> t.want == Want::Id && t.bus == s.bus && t.slot == s.slot + 1 && t.func == 0
            &&& s.slot == 31 && s.bus < 255 && (s.any || s.bus <= 8) ==> t.want == Want::Id && t.bus == s.bus + 1 && t.slot
                == 0 && t.func == 0
            &&& s.slot == 31 && (s.bus == 255 || !s.any && s.bus > 8) ==> t.want == Want::Finished
        },
        (s.want == Want::Id && value % 0x1_0000 == 0xFFFF || s.want is Class) && 1 <= s.func < 7 ==> {
            let t = scanned(s, value);
            t.want == Want::Id && t.bus == s.bus && t.slot == s.slot && t.func == s.func + 1
        },
        s.want is Class && s.func == 0 ==> scanned(s, value).want == Want::Header && scanned(s, value).any,
{
}

/// The first device of a class is found, and none only if there is none.
pub proof fn lemma_first_of_class(list: Seq<PciDevice>, class: u8, subclass: u8, i: int, j: int)
    requires
        0 <= i <= j <= list.len(),
        forall|k: int| i <= k < j ==> !((#[trigger] list[k]).class == class && list[k].subclass == subclass),
    ensures
        j == list.len() ==> of_class(list, class, subclass, i) is None,
        j < list.len() && list[j].class == class && list[j].subclass == subclass ==> of_class(
            list,
            class,
            subclass,
            i,
        ) == Some(list[j]),
    decreases j - i,
{
    if i < j {
        assert(!(list[i].class == class && list[i].subclass == subclass));
        lemma_first_of_class(list, class, subclass, i + 1, j);
    }
}

/// A memory window is as large as the address bits that its register keeps at 0
/// say, and starts where its address bits say, whatever its lowest bits are.
pub proof fn lemma_memory_window(size: int, low: u32, high: u32, high_probe: u32)
    requires
        0 < size < 0x1_0000_0000,
        size % 16 == 0,
        low % 2 == 0,
        low % 8 / 2 != 2,
    ensures
        window(low, (0x1_0000_0000 - size + low % 16) as u32, high, high_probe) == (Bar {
            base: (low - low % 16) as u64,
            size: size as u64,
            io: false,
        }),
{
    let probe = (0x1_0000_0000 - size + low % 16) as u32;
    let k = (0x1_0000_0000 - size) / 16;
    assert(probe as int == 16 * k + (low % 16) as int);
    vstd::arithmetic::div_mod::lemma_fundamental_div_mod_converse(probe as int, 16, k, (low % 16) as int);
    assert(probe - probe % 16 == 0x1_0000_0000 - size);
    assert(!is_wide(low));
}

/// The same for a window with an address of 64 bits, whose upper half is in the
/// register after it.
pub proof fn lemma_wide_window(size: int, low: u32, high: u32)
    requires
        0 < size < 0x8000_0000_0000_0000,
        size % 16 == 0,
        low % 8 == 4,
    ensures
        ({
            let p = 0x1_0000_0000_0000_0000 - size;
            window(low, (p % 0x1_0000_0000 + low % 16) as u32, high, (p / 0x1_0000_0000) as u32) == (Bar {
                base: (high * 0x1_0000_0000 + (low - low % 16)) as u64,
                size: size as u64,
                io: false,
            })
        }),
{
    let p = 0x1_0000_0000_0000_0000 - size;
    let lower = p % 0x1_0000_0000;
    let probe = (lower + low % 16) as u32;
    let k = lower / 16;
    assert(lower % 16 == 0);
    assert(probe as int == 16 * k + (low % 16) as int);
    vstd::arithmetic::div_mod::lemma_fundamental_div_mod_converse(probe as int, 16, k, (low % 16) as int);
    assert(probe - probe % 16 == lower);
    let upper = (p / 0x1_0000_0000) as u32;
    assert(upper * 0x1_0000_0000 + lower == p);
    assert(low % 16 == 4 || low % 16 == 12);
    assert(is_wide(low));
    assert(probe != 0);
}

/// The same for a range of ports.
pub proof fn lemma_port_window(size: int, low: u32, high: u32, high_probe: u32)
    requires
        0 < size < 0x1_0000,
        size % 4 == 0,
        low % 2 == 1,
    ensures
        window(low, (0x1_0000_0000 - size + low % 4) as u32, high, high_probe) == (Bar {
            base: (low - low % 4) as u64,
            size: size as u64,
            io: true,
        }),
{
    let probe = (0x1_0000_0000 - size + low % 4) as u32;
    let k = (0x1_0000_0000 - size) / 4;
    assert(probe as int == 4 * k + (low % 4) as int);
    vstd::arithmetic::div_mod::lemma_fundamental_div_mod_converse(probe as int, 4, k, (low % 4) as int);
    assert(probe - probe % 4 == 0x1_0000_0000 - size);
    vstd::arithmetic::div_mod::lemma_fundamental_div_mod_converse(
        0x1_0000_0000 - size,
        0x1_0000,
        0xFFFF,
        0x1_0000 - size,
    );
}

/// A register says by its lowest bits what it is for: an odd one is for ports and
/// takes one register. Of those for memory only type 2 takes two.
pub proof fn lemma_two_registers(low: u32)
    ensures
        is_wide(low) <==> low % 8 == 4,
        low % 2 == 1 ==> !is_wide(low),
{
    assert(low % 2 == 0 && low % 8 / 2 == 2 <==> low % 8 == 4) by (bit_vector);
}

} // verus!
