//! Tables, controllers, buses and traps of the machine.
use k1k::arch::acpi::{
    checksum_ok, has_signature, root, table_len, tables, IoApicInfo, IrqOverride, Madt, RsdpError,
};
use k1k::arch::apic::{
    init_ioapic, lapic_id, redirect_regs, redirections, route_isa_irq, start_timer, ticks_per_ms,
    timer_count,
    IoApic, Route, DIV_16, LAPIC_LVT_TIMER, LAPIC_TIMER_DIV, LAPIC_TIMER_INIT, TIMER_PERIODIC,
};
use k1k::arch::legacy::{
    on_timer, pic_init, pic_line, pit_divisor, serial_bytes, serial_init, start_list, unmasked,
    uptime_ms, Ap, Out, COM1, MAX_CPUS, PIC1_CMD, PIC1_DATA, PIC2_DATA,
};
use k1k::arch::pci::{bar, class_name, config_address, describe, find, PciDevice, Scan};
use k1k::arch::trap::{classify, exception_name, init_stack, SavedFrame, Trap, TrapFrame};
use k1k::bytes::{put_u32, put_u64};
use k1k::rt::calls::{Bar, DevInfo};

fn seal(b: &mut [u8], at: usize, len: usize) {
    b[at] = 0;
    let sum: u32 = b[..len].iter().map(|x| *x as u32).sum();
    b[at] = ((256 - sum % 256) % 256) as u8;
}

fn rsdp(revision: u8) -> Vec<u8> {
    let mut r = vec![0u8; 36];
    r[..8].copy_from_slice(b"RSD PTR ");
    r[15] = revision;
    put_u32(&mut r, 16, 0x1000);
    put_u32(&mut r, 20, 36);
    put_u64(&mut r, 24, 0x2_0000_0000);
    seal(&mut r, 8, 20);
    seal(&mut r, 32, 36);
    r
}

#[test]
fn root_table_by_revision() {
    assert_eq!(root(&rsdp(0)), Ok((0x1000, 4)));
    assert_eq!(root(&rsdp(2)), Ok((0x2_0000_0000, 8)));
    // A wrong extended checksum falls back to the short table.
    let mut r = rsdp(2);
    r[33] ^= 1;
    assert_eq!(root(&r), Ok((0x1000, 4)));
    let mut r = rsdp(0);
    r[16] ^= 1;
    assert_eq!(root(&r), Err(RsdpError::BadChecksum));
    let mut r = rsdp(0);
    r[0] = b'X';
    assert_eq!(root(&r), Err(RsdpError::BadSignature));
}

#[test]
fn tables_of_the_root() {
    let mut t = vec![0u8; 36 + 16];
    t[..4].copy_from_slice(b"XSDT");
    put_u32(&mut t, 4, 52);
    put_u64(&mut t, 36, 0x1_2345);
    put_u64(&mut t, 44, 0xABCD);
    seal(&mut t, 9, 52);
    assert!(checksum_ok(&t));
    t[40] ^= 1;
    assert!(!checksum_ok(&t));
    t[40] ^= 1;
    assert_eq!(table_len(&t), Some(52));
    assert!(has_signature(&t, b"XSDT"));
    assert!(!has_signature(&t, b"APIC"));
    assert!(!has_signature(b"XS", b"XSDT"));
    assert_eq!(tables(&t, 8), [0x1_2345, 0xABCD]);
    assert_eq!(tables(&t, 4), [0x1_2345, 0, 0xABCD, 0]);
    put_u32(&mut t, 4, 35);
    assert_eq!(table_len(&t), None);
    put_u32(&mut t, 4, 0x10_0000);
    assert_eq!(table_len(&t), None);
}

fn madt_table() -> Vec<u8> {
    let mut t = vec![0u8; 44];
    put_u32(&mut t, 36, 0xFEE0_0000);
    put_u32(&mut t, 40, 1);
    t.extend_from_slice(&[0, 8, 1, 7, 1, 0, 0, 0]);
    t.extend_from_slice(&[0, 8, 2, 9, 0, 0, 0, 0]);
    t.extend_from_slice(&[1, 12, 3, 0, 0, 0, 0xC0, 0xFE, 16, 0, 0, 0]);
    t.extend_from_slice(&[2, 10, 0, 9, 20, 0, 0, 0, 0x0F, 0]);
    t.extend_from_slice(&[5, 12, 0, 0, 0, 0, 0, 0xFE, 1, 0, 0, 0]);
    t
}

#[test]
fn madt_entries() {
    let mut m = Madt::new();
    m.parse_madt(&madt_table());
    assert_eq!(m.lapic_address, 0x1_FE00_0000);
    assert!(m.has_legacy_pics);
    assert_eq!(m.cpus, [(1, 7)]);
    assert_eq!(m.ioapics, [IoApicInfo { id: 3, address: 0xFEC0_0000, gsi_base: 16 }]);
    assert_eq!(
        m.overrides,
        [IrqOverride { isa_irq: 9, gsi: 20, active_low: true, level_triggered: true }]
    );
    // An entry that claims no length ends the walk; so does one past the end.
    let mut t = madt_table();
    t[44 + 1] = 0;
    let mut m = Madt::new();
    m.parse_madt(&t);
    assert!(m.cpus.is_empty());
    let t = madt_table();
    let mut m = Madt::new();
    m.parse_madt(&t[..t.len() - 1]);
    assert_eq!(m.lapic_address, 0xFEE0_0000);
    assert_eq!(m.overrides.len(), 1);
}

#[test]
fn local_apic_timer() {
    assert_eq!(lapic_id(0x0500_0000), 5);
    assert_eq!(ticks_per_ms(62_500 * 20), 62_500);
    assert_eq!(timer_count(62_500, 1000), 62_500);
    assert_eq!(timer_count(62_500, 100), 625_000);
    assert_eq!(timer_count(0, 1000), 1);
    let w = start_timer(32, 62_500, 1000);
    assert_eq!((w[0].reg, w[0].value), (LAPIC_TIMER_DIV, DIV_16));
    assert_eq!((w[1].reg, w[1].value), (LAPIC_LVT_TIMER, TIMER_PERIODIC + 32));
    assert_eq!((w[2].reg, w[2].value), (LAPIC_TIMER_INIT, 62_500));
}

#[test]
fn isa_lines_find_their_pin() {
    let ioapics = [
        IoApic { gsi_base: 0, entries: 16 },
        IoApic { gsi_base: 16, entries: redirections(0x0017_0011) },
    ];
    assert_eq!(ioapics[1].entries, 24);
    assert_eq!(redirect_regs(3), (0x16, 0x17));
    let plain = route_isa_irq(1, 35, 4, &[], &ioapics);
    assert_eq!(
        plain,
        Some(Route { ioapic: 0, index: 1, low: 35, high: 0x0400_0000, gsi: 1, level: false })
    );
    let o = [IrqOverride { isa_irq: 9, gsi: 20, active_low: true, level_triggered: true }];
    let moved = route_isa_irq(9, 43, 0, &o, &ioapics);
    assert_eq!(
        moved,
        Some(Route { ioapic: 1, index: 4, low: 43 + 0x2000 + 0x8000, high: 0, gsi: 20, level: true })
    );
    assert_eq!(route_isa_irq(1, 35, 4, &[], &[]), None);
}

#[test]
fn legacy_devices() {
    let p = pic_init(32);
    assert_eq!(p[0], Out { port: PIC1_CMD, value: 0x11 });
    assert_eq!(p[3], Out { port: PIC2_DATA, value: 40 });
    assert_eq!(p[9], Out { port: PIC2_DATA, value: 0xFF });
    assert_eq!(unmasked(0xFF, 1), 0xFD);
    assert_eq!(unmasked(0xFD, 1), 0xFD);
    assert_eq!(pic_line(1), (PIC1_DATA, 1));
    assert_eq!(pic_line(12), (PIC2_DATA, 4));
    assert_eq!(pit_divisor(100), (11931, 0x9B, 0x2E));
    assert_eq!(pit_divisor(1).0, 65535);
    assert_eq!(pit_divisor(2_000_000).0, 1);
    let s = serial_init();
    assert_eq!(s[1], Out { port: COM1 + 3, value: 0x80 });
    assert_eq!(s[6], Out { port: COM1 + 4, value: 0x0B });
    assert_eq!(serial_bytes("a\nb"), b"a\r\nb");
    assert_eq!(uptime_ms(1234), 1234);
    assert_eq!(on_timer(7, 0), 8);
    assert_eq!(on_timer(7, 1), 7);
}

#[test]
fn cpus_are_numbered_from_one() {
    let l = start_list(&[0, 2, 4], 2);
    assert_eq!(l, [Ap { cpu_id: 1, lapic_id: 0 }, Ap { cpu_id: 2, lapic_id: 4 }]);
    let many: Vec<u32> = (0..100).collect();
    let l = start_list(&many, 0);
    assert_eq!(l.len(), MAX_CPUS - 1);
    for (i, ap) in l.iter().enumerate() {
        assert_eq!(ap.cpu_id as usize, i + 1);
    }
}

/// One device with two functions in slot 3 and a single one in slot 5.
fn config(addr: u32) -> u32 {
    let slot = addr / 0x800 % 32;
    let func = addr / 0x100 % 8;
    let bus = addr / 0x1_0000 % 256;
    let reg = addr % 0x100;
    let here = bus == 0 && ((slot == 3 && (func == 0 || func == 4)) || (slot == 5 && func == 0));
    match (here, reg) {
        (false, _) => 0xFFFF_FFFF,
        (true, 0) => 0x5678_1234 + func,
        (true, 8) if slot == 3 => 0x0108_0201,
        (true, 8) => 0x0200_0000,
        (true, 12) if slot == 3 => 0x0080_0000,
        _ => 0,
    }
}

#[test]
fn bus_scan_lists_every_function_once() {
    let mut s = Scan::new();
    let mut reads = 0;
    while let Some(a) = s.next() {
        s.feed(config(a));
        reads += 1;
        assert!(reads < 200_000);
    }
    let places: Vec<(u8, u8, u8)> = s.list.iter().map(|d| (d.bus, d.slot, d.func)).collect();
    assert_eq!(places, [(0, 3, 0), (0, 3, 4), (0, 5, 0)]);
    assert_eq!(s.list[0].vendor, 0x1234);
    assert_eq!(s.list[0].device, 0x5678);
    assert_eq!(s.list[1].vendor, 0x1238);
    assert_eq!((s.list[0].class, s.list[0].subclass), (1, 8));
    // The scan gives up after the first empty bus past the eighth.
    assert_eq!(s.bus, 9);
    assert_eq!(find(&s.list, 2, 0).map(|d| d.slot), Some(5));
    assert_eq!(find(&s.list, 3, 0), None);
    assert_eq!(config_address(1, 2, 3, 0x12), 0x8001_1310);
    assert_eq!(class_name(1, 8), "NVMe controller");
    assert_eq!(class_name(1, 0x80), "storage");
    assert_eq!(class_name(6, 4), "PCI-PCI bridge");
    assert_eq!(class_name(0x42, 0), "other");
}

#[test]
fn device_description_reaches_the_driver() {
    let d = PciDevice {
        bus: 1,
        slot: 2,
        func: 3,
        vendor: 0x8086,
        device: 0x5845,
        class: 1,
        subclass: 8,
    };
    let none = Bar { base: 0, size: 0, io: false };
    let bars = [
        Bar { base: 0xFE00_0000, size: 0x4000, io: false },
        Bar { base: 0xC000, size: 0x20, io: true },
        none,
        none,
        none,
        none,
    ];
    let i = DevInfo::decode(&describe(d, &bars));
    assert_eq!((i.vendor, i.device, i.class, i.subclass), (0x8086, 0x5845, 1, 8));
    assert_eq!((i.bus, i.slot, i.func), (1, 2, 3));
    assert_eq!(i.bars, bars);
}

fn frame(vector: u64, cs: u64) -> TrapFrame {
    TrapFrame {
        r15: 0,
        r14: 0,
        r13: 0,
        r12: 0,
        r11: 0,
        r10: 0,
        r9: 0,
        r8: 0,
        rbp: 0,
        rdi: 0,
        rsi: 0,
        rdx: 0,
        rcx: 0,
        rbx: 0,
        rax: 0,
        vector,
        error_code: 0,
        rip: 0,
        cs,
        rflags: 0,
        rsp: 0,
        ss: 0,
    }
}

#[test]
fn traps_are_told_apart() {
    assert_eq!(classify(&frame(14, 0x23)), Trap::UserPageFault);
    assert_eq!(classify(&frame(13, 0x23)), Trap::UserFault);
    assert_eq!(classify(&frame(13, 0x08)), Trap::KernelPanic);
    assert_eq!(classify(&frame(3, 0x08)), Trap::Note);
    assert_eq!(classify(&frame(32, 0x08)), Trap::Timer);
    assert_eq!(classify(&frame(255, 0x08)), Trap::Spurious);
    assert_eq!(classify(&frame(64, 0x23)), Trap::Device(64));
    for v in 0..256 {
        assert_ne!(classify(&frame(v, 0x23)), Trap::KernelPanic);
    }
    assert!(frame(0, 0x23).from_user());
    assert!(!frame(0, 0x08).from_user());
    assert_eq!(exception_name(14), "#PF page fault");
    assert_eq!(exception_name(15), "reserved");
}

#[test]
fn fresh_stack_starts_in_the_trampoline() {
    let (sp, f) = init_stack(0x1_0008, 0x1111, 0x2222, 0x3333);
    assert_eq!(sp, 0x1_0000 - 56);
    assert_eq!(
        f,
        SavedFrame { r15: 0, r14: 0, r13: 0x2222, r12: 0x1111, rbx: 0, rbp: 0, rip: 0x3333 }
    );
}

#[test]
fn windows_by_what_their_registers_read_back() {
    let none = Bar {
        base: 0,
        size: 0,
        io: false,
    };
    assert_eq!(bar(0, 0, 0, 0), (none, false));
    // 16 KiB of memory behind a 32-bit register.
    let mem = Bar {
        base: 0xfebf_0000,
        size: 0x4000,
        io: false,
    };
    assert_eq!(bar(0xfebf_0008, 0xffff_c008, 7, 7), (mem, false));
    // The same behind a 64-bit pair.
    let wide = Bar {
        base: 0x80_0000_0000,
        size: 0x4000,
        io: false,
    };
    assert_eq!(bar(0x0000_0004, 0xffff_c004, 0x80, 0xffff_ffff), (wide, true));
    // 32 ports.
    let ports = Bar {
        base: 0xc040,
        size: 32,
        io: true,
    };
    assert_eq!(bar(0xc041, 0xffff_ffe1, 0, 0), (ports, false));
    // Nothing has half of the address space.
    assert_eq!(bar(0x0000_0004, 0xffff_c004, 0x80, 0), (none, true));
}

#[test]
fn every_redirection_entry_is_masked() {
    let (io, writes) = init_ioapic(24, 0x0002_0020);
    assert_eq!(io, IoApic { gsi_base: 24, entries: 3 });
    let pairs: Vec<(u32, u32)> = writes.iter().map(|w| (w.reg, w.value)).collect();
    let masked = 0x1_0000;
    assert_eq!(
        pairs,
        [(0x11, 0), (0x10, masked), (0x13, 0), (0x12, masked), (0x15, 0), (0x14, masked)]
    );
    assert_eq!(init_ioapic(0, 0x00ff_0020).1.len(), 512);
}
