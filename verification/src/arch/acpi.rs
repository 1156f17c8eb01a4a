//! Minimal ACPI: find the root table from the RSDP, walk it, and parse the MADT
//! for local APIC, I/O APIC and interrupt-override information.
use vstd::prelude::*;

use crate::bytes;

verus! {

/// Bytes of a table header.
pub const HEADER: usize = 36;

/// No table is this long.
pub const MAX_TABLE: usize = 0x10_0000;

#[derive(Clone, Copy, Debug, PartialEq, Eq, Structural)]
pub struct IoApicInfo {
    pub id: u8,
    pub address: u32,
    pub gsi_base: u32,
}

#[derive(Clone, Copy, Debug, PartialEq, Eq, Structural)]
pub struct IrqOverride {
    pub isa_irq: u8,
    pub gsi: u32,
    pub active_low: bool,
    pub level_triggered: bool,
}

/// What the MADT says.
pub struct Madt {
    pub lapic_address: u64,
    /// ACPI processor id and APIC id of every enabled CPU.
    pub cpus: Vec<(u8, u8)>,
    pub ioapics: Vec<IoApicInfo>,
    pub overrides: Vec<IrqOverride>,
    pub has_legacy_pics: bool,
}

#[verifier::ext_equal]
pub struct MadtView {
    pub lapic_address: u64,
    pub cpus: Seq<(u8, u8)>,
    pub ioapics: Seq<IoApicInfo>,
    pub overrides: Seq<IrqOverride>,
    pub has_legacy_pics: bool,
}

impl View for Madt {
    type V = MadtView;

    open spec fn view(&self) -> MadtView {
        MadtView {
            lapic_address: self.lapic_address,
            cpus: self.cpus@,
            ioapics: self.ioapics@,
            overrides: self.overrides@,
            has_legacy_pics: self.has_legacy_pics,
        }
    }
}

/// Why there is no root table.
#[derive(Clone, Copy, Debug, PartialEq, Eq, Structural)]
pub enum RsdpError {
    BadSignature,
    BadChecksum,
}

/// The sum of the bytes of a buffer.
pub open spec fn byte_sum(b: Seq<u8>) -> int
    decreases b.len(),
{
    if b.len() == 0 {
        0
    } else {
        byte_sum(b.drop_last()) + b.last()
    }
}

/// A table is in order if its bytes sum to a multiple of 256.
pub open spec fn checksum(b: Seq<u8>) -> bool {
    byte_sum(b) % 256 == 0
}

pub fn checksum_ok(b: &[u8]) -> (r: bool)
    ensures
        r == checksum(b@),
{
    let mut sum: u8 = 0;
    let mut i: usize = 0;
    assert(b@.take(0) =~= Seq::empty());
    while i < b.len()
        invariant
            i <= b@.len(),
            sum == byte_sum(b@.take(i as int)) % 256,
        decreases b@.len() - i,
    {
        let x: u8 = b[i];
        sum = ((sum as u32 + x as u32) % 256) as u8;
        assert(b@.take(i + 1).drop_last() =~= b@.take(i as int));
        i = i + 1;
    }
    assert(b@.take(i as int) =~= b@);
    sum == 0
}

/// The length a table header gives, if it is plausible.
pub open spec fn length_of(hdr: Seq<u8>) -> Option<int> {
    let n = bytes::le_u32(hdr, 4);
    if HEADER <= n < MAX_TABLE {
        Some(n as int)
    } else {
        None
    }
}

pub fn table_len(hdr: &[u8]) -> (r: Option<usize>)
    requires
        hdr@.len() >= HEADER,
    ensures
        r is Some <==> length_of(hdr@) is Some,
        r matches Some(n) ==> length_of(hdr@) == Some(n as int),
{
    let n: u32 = bytes::get_u32(hdr, 4);
    if n < HEADER as u32 || n >= MAX_TABLE as u32 {
        return None;
    }
    Some(n as usize)
}

/// Whether a table has a signature.
pub fn has_signature(t: &[u8], sig: &[u8; 4]) -> (r: bool)
    ensures
        r == (t@.len() >= 4 && t@.subrange(0, 4) == sig@),
{
    assert(t.len() == t@.len());
    if t.len() < 4 {
        return false;
    }
    bytes::equal(vstd::slice::slice_subrange(t, 0, 4), sig)
}

/// The signature of the RSDP: "RSD PTR ".
pub open spec fn rsdp_signature() -> Seq<u8> {
    seq![0x52u8, 0x53, 0x44, 0x20, 0x50, 0x54, 0x52, 0x20]
}

/// Where the root table is and how long its entries are. Revision 2 and later
/// have a 64-bit address, if the longer checksum is right; otherwise the 32-bit
/// one counts.
pub open spec fn root_of(rsdp: Seq<u8>) -> Result<(u64, usize), RsdpError> {
    if rsdp.subrange(0, 8) != rsdp_signature() {
        Err(RsdpError::BadSignature)
    } else if rsdp[15] >= 2 && checksum(rsdp.subrange(0, 36)) {
        Ok((bytes::le_u64(rsdp, 24), 8usize))
    } else if checksum(rsdp.subrange(0, 20)) {
        Ok((bytes::le_u32(rsdp, 16) as u64, 4usize))
    } else {
        Err(RsdpError::BadChecksum)
    }
}

pub fn root(rsdp: &[u8]) -> (r: Result<(u64, usize), RsdpError>)
    requires
        rsdp@.len() >= HEADER,
    ensures
        r == root_of(rsdp@),
{
    let want: [u8; 8] = [0x52, 0x53, 0x44, 0x20, 0x50, 0x54, 0x52, 0x20];
    assert(want@ =~= rsdp_signature());
    if !bytes::equal(vstd::slice::slice_subrange(rsdp, 0, 8), &want) {
        return Err(RsdpError::BadSignature);
    }
    if rsdp[15] >= 2 && checksum_ok(vstd::slice::slice_subrange(rsdp, 0, 36)) {
        return Ok((bytes::get_u64(rsdp, 24), 8));
    }
    if checksum_ok(vstd::slice::slice_subrange(rsdp, 0, 20)) {
        return Ok((bytes::get_u32(rsdp, 16) as u64, 4));
    }
    Err(RsdpError::BadChecksum)
}

/// The addresses of the tables that the root table lists.
pub open spec fn listed(sdt: Seq<u8>, entry_size: int) -> Seq<u64> {
    Seq::new(
        ((sdt.len() - HEADER) / entry_size) as nat,
        |i: int|
            if entry_size == 8 {
                bytes::le_u64(sdt, HEADER + i * 8)
            } else {
                bytes::le_u32(sdt, HEADER + i * 4) as u64
            },
    )
}

pub fn tables(sdt: &[u8], entry_size: usize) -> (r: Vec<u64>)
    requires
        sdt@.len() >= HEADER,
        entry_size == 4 || entry_size == 8,
    ensures
        r@ == listed(sdt@, entry_size as int),
{
    assert(sdt.len() == sdt@.len());
    let n: usize = if entry_size == 8 {
        (sdt.len() - HEADER) / 8
    } else {
        (sdt.len() - HEADER) / 4
    };
    let mut out: Vec<u64> = Vec::new();
    let mut i: usize = 0;
    while i < n
        invariant
            i <= n,
            sdt.len() == sdt@.len(),
            entry_size == 4 || entry_size == 8,
            entry_size == 8 ==> HEADER + n * 8 <= sdt@.len(),
            entry_size == 4 ==> HEADER + n * 4 <= sdt@.len(),
            n == listed(sdt@, entry_size as int).len(),
            out@ == listed(sdt@, entry_size as int).take(i as int),
        decreases n - i,
    {
        let addr: u64 = if entry_size == 8 {
            bytes::get_u64(sdt, HEADER + i * 8)
        } else {
            bytes::get_u32(sdt, HEADER + i * 4) as u64
        };
        out.push(addr);
        i = i + 1;
        assert(out@ =~= listed(sdt@, entry_size as int).take(i as int));
    }
    assert(out@ =~= listed(sdt@, entry_size as int));
    out
}

/// What one MADT entry, from `off` on and `len` bytes long, adds.
pub open spec fn entry_adds(t: Seq<u8>, off: int, len: int, m: MadtView) -> MadtView {
    let kind = t[off];
    if kind == 0 && len >= 8 {
        if bytes::le_u32(t, off + 4) % 2 == 1 {
            MadtView { cpus: m.cpus.push((t[off + 2], t[off + 3])), ..m }
        } else {
            m
        }
    } else if kind == 1 && len >= 12 {
        MadtView {
            ioapics: m.ioapics.push(
                IoApicInfo {
                    id: t[off + 2],
                    address: bytes::le_u32(t, off + 4),
                    gsi_base: bytes::le_u32(t, off + 8),
                },
            ),
            ..m
        }
    } else if kind == 2 && len >= 10 {
        let flags = bytes::le_u16(t, off + 8);
        MadtView {
            overrides: m.overrides.push(
                IrqOverride {
                    isa_irq: t[off + 3],
                    gsi: bytes::le_u32(t, off + 4),
                    active_low: flags % 4 == 3,
                    level_triggered: flags / 4 % 4 == 3,
                },
            ),
            ..m
        }
    } else if kind == 5 && len >= 12 {
        MadtView { lapic_address: bytes::le_u64(t, off + 4), ..m }
    } else {
        m
    }
}

/// What the entries from `off` on add, up to the first one that is shorter than
/// its own header or longer than the table.
pub open spec fn entries_add(t: Seq<u8>, off: int, m: MadtView) -> MadtView
    decreases t.len() - off,
{
    if off < 0 || off + 2 > t.len() {
        m
    } else {
        let len = t[off + 1] as int;
        if len < 2 || off + len > t.len() {
            m
        } else {
            entries_add(t, off + len, entry_adds(t, off, len, m))
        }
    }
}

/// What a MADT adds to what is known already.
pub open spec fn madt_adds(t: Seq<u8>, m: MadtView) -> MadtView {
    entries_add(
        t,
        44,
        MadtView {
            lapic_address: bytes::le_u32(t, 36) as u64,
            has_legacy_pics: bytes::le_u32(t, 40) % 2 == 1,
            ..m
        },
    )
}

impl Madt {
    pub fn new() -> (r: Self)
        ensures
            r@ == (MadtView {
                lapic_address: 0,
                cpus: Seq::empty(),
                ioapics: Seq::empty(),
                overrides: Seq::empty(),
                has_legacy_pics: false,
            }),
    {
        let r: Madt = Madt {
            lapic_address: 0,
            cpus: Vec::new(),
            ioapics: Vec::new(),
            overrides: Vec::new(),
            has_legacy_pics: false,
        };
        assert(r.cpus@ =~= Seq::empty());
        assert(r.ioapics@ =~= Seq::empty());
        assert(r.overrides@ =~= Seq::empty());
        r
    }

    fn add_entry(&mut self, t: &[u8], off: usize, len: usize)
        requires
            2 <= len,
            off + len <= t@.len(),
        ensures
            final(self)@ == entry_adds(t@, off as int, len as int, old(self)@),
    {
        assert(t.len() == t@.len());
        let kind: u8 = t[off];
        if kind == 0 && len >= 8 {
            if bytes::get_u32(t, off + 4) % 2 == 1 {
                self.cpus.push((t[off + 2], t[off + 3]));
            }
        } else if kind == 1 && len >= 12 {
            self.ioapics.push(
                IoApicInfo {
                    id: t[off + 2],
                    address: bytes::get_u32(t, off + 4),
                    gsi_base: bytes::get_u32(t, off + 8),
                },
            );
        } else if kind == 2 && len >= 10 {
            let flags: u16 = bytes::get_u16(t, off + 8);
            self.overrides.push(
                IrqOverride {
                    isa_irq: t[off + 3],
                    gsi: bytes::get_u32(t, off + 4),
                    active_low: flags % 4 == 3,
                    level_triggered: flags / 4 % 4 == 3,
                },
            );
        } else if kind == 5 && len >= 12 {
            self.lapic_address = bytes::get_u64(t, off + 4);
        }
        assert(self@ =~= entry_adds(t@, off as int, len as int, old(self)@));
    }

    /// Add what a MADT says.
    pub fn parse_madt(&mut self, t: &[u8])
        requires
            t@.len() >= 44,
        ensures
            final(self)@ == madt_adds(t@, old(self)@),
    {
        assert(t.len() == t@.len());
        self.lapic_address = bytes::get_u32(t, 36) as u64;
        self.has_legacy_pics = bytes::get_u32(t, 40) % 2 == 1;
        let mut off: usize = 44;
        let mut more: bool = true;
        while more && t.len() - off >= 2
            invariant
                off <= t@.len() == t.len(),
                more ==> entries_add(t@, off as int, self@) == madt_adds(t@, old(self)@),
                !more ==> self@ == madt_adds(t@, old(self)@),
            decreases t@.len() - off + (if more {
                1int
            } else {
                0int
            }),
        {
            let len: usize = t[off + 1] as usize;
            if len < 2 || len > t.len() - off {
                more = false;
            } else {
                self.add_entry(t, off, len);
                off = off + len;
            }
        }
    }
}

/// A byte more makes a table right that lacked exactly that much to a multiple of
/// 256.
pub proof fn lemma_checksum(b: Seq<u8>, c: u8)
    ensures
        byte_sum(b.push(c)) == byte_sum(b) + c,
        byte_sum(Seq::empty()) == 0,
        checksum(b.push(c)) <==> (byte_sum(b) + c) % 256 == 0,
{
    assert(b.push(c).drop_last() =~= b);
}

/// The root table is where the descriptor says: by its eight-byte address from
/// revision 2 on, if all 36 bytes are right, and by its four-byte address
/// otherwise, if the first 20 are. Nothing else is believed.
pub proof fn lemma_root(rsdp: Seq<u8>)
    requires
        rsdp.len() >= 36,
    ensures
        ({
            let named = rsdp[0] == 'R' as u8 && rsdp[1] == 'S' as u8 && rsdp[2] == 'D' as u8 && rsdp[3] == ' ' as u8
                && rsdp[4] == 'P' as u8 && rsdp[5] == 'T' as u8 && rsdp[6] == 'R' as u8 && rsdp[7] == ' ' as u8;
            let long = rsdp[15] >= 2 && byte_sum(rsdp.take(36)) % 256 == 0;
            let short = byte_sum(rsdp.take(20)) % 256 == 0;
            &&& root_of(rsdp) is Ok <==> named && (long || short)
            &&& named && long ==> root_of(rsdp) == Ok::<(u64, usize), RsdpError>((bytes::le_u64(rsdp, 24), 8))
            &&& named && !long && short ==> root_of(rsdp) == Ok::<(u64, usize), RsdpError>(
                (bytes::le_u32(rsdp, 16) as u64, 4),
            )
            &&& !named ==> root_of(rsdp) == Err::<(u64, usize), RsdpError>(RsdpError::BadSignature)
        }),
{
    let s = rsdp.subrange(0, 8);
    let sig = rsdp_signature();
    assert(rsdp.subrange(0, 36) =~= rsdp.take(36));
    assert(rsdp.subrange(0, 20) =~= rsdp.take(20));
    if s == sig {
        assert forall|i: int| 0 <= i < 8 implies #[trigger] rsdp[i] == sig[i] by {
            assert(s[i] == rsdp[i]);
        }
        assert(rsdp[0] == 0x52 && rsdp[1] == 0x53 && rsdp[2] == 0x44 && rsdp[3] == 0x20 && rsdp[4] == 0x50 && rsdp[5]
            == 0x54 && rsdp[6] == 0x52 && rsdp[7] == 0x20);
    } else {
        if rsdp[0] == 0x52 && rsdp[1] == 0x53 && rsdp[2] == 0x44 && rsdp[3] == 0x20 && rsdp[4] == 0x50 && rsdp[5]
            == 0x54 && rsdp[6] == 0x52 && rsdp[7] == 0x20 {
            assert(s =~= sig);
        }
    }
}

/// The root table lists addresses from its 37th byte to its end, four or eight
/// bytes each.
pub proof fn lemma_listed(sdt: Seq<u8>, i: int)
    requires
        sdt.len() >= 36,
        0 <= i,
    ensures
        i < listed(sdt, 4).len() <==> 36 + 4 * (i + 1) <= sdt.len(),
        i < listed(sdt, 8).len() <==> 36 + 8 * (i + 1) <= sdt.len(),
        i < listed(sdt, 4).len() ==> listed(sdt, 4)[i] == bytes::le_u32(sdt, 36 + 4 * i),
        i < listed(sdt, 8).len() ==> listed(sdt, 8)[i] == bytes::le_u64(sdt, 36 + 8 * i),
{
}

/// What the entries of the table say, one after the other: a processor that is
/// switched on, an I/O APIC, where an ISA line really goes, and another address of
/// the local APIC. Other entries are passed over, and one that is no entry ends
/// the list.
pub proof fn lemma_madt_entries(t: Seq<u8>, off: int, m: MadtView)
    requires
        0 <= off,
    ensures
        off + 2 > t.len() ==> entries_add(t, off, m) == m,
        off + 2 <= t.len() && (t[off + 1] < 2 || off + t[off + 1] > t.len()) ==> entries_add(t, off, m) == m,
        off + 2 <= t.len() && t[off + 1] >= 2 && off + t[off + 1] <= t.len() ==> {
            let next = off + t[off + 1];
            &&& t[off] == 0 && t[off + 1] == 8 ==> entries_add(t, off, m) == entries_add(
                t,
                next,
                if t[off + 4] % 2 == 1 {
                    MadtView { cpus: m.cpus.push((t[off + 2], t[off + 3])), ..m }
                } else {
                    m
                },
            )
            &&& t[off] == 1 && t[off + 1] == 12 ==> entries_add(t, off, m) == entries_add(
                t,
                next,
                MadtView {
                    ioapics: m.ioapics.push(
                        IoApicInfo {
                            id: t[off + 2],
                            address: bytes::le_u32(t, off + 4),
                            gsi_base: bytes::le_u32(t, off + 8),
                        },
                    ),
                    ..m
                },
            )
            &&& t[off] == 2 && t[off + 1] == 10 ==> entries_add(t, off, m) == entries_add(
                t,
                next,
                MadtView {
                    overrides: m.overrides.push(
                        IrqOverride {
                            isa_irq: t[off + 3],
                            gsi: bytes::le_u32(t, off + 4),
                            active_low: t[off + 8] % 4 == 3,
                            level_triggered: t[off + 8] / 4 % 4 == 3,
                        },
                    ),
                    ..m
                },
            )
            &&& t[off] == 5 && t[off + 1] == 12 ==> entries_add(t, off, m) == entries_add(
                t,
                next,
                MadtView { lapic_address: bytes::le_u64(t, off + 4), ..m },
            )
            &&& t[off] == 3 || t[off] == 4 || t[off] > 5 ==> entries_add(t, off, m) == entries_add(t, next, m)
        },
{
    if off + 10 <= t.len() {
        bytes::lemma_least_first(t, off + 4);
        bytes::lemma_least_first(t, off + 8);
        let lo = t[off + 8] as int;
        let hi = t[off + 9] as int;
        assert((lo + 256 * hi) % 4 == lo % 4);
        assert((lo + 256 * hi) / 4 % 4 == lo / 4 % 4);
    }
}

/// What a table says at its head: where the local APIC is, and whether there are
/// legacy interrupt controllers. Its entries start at its 45th byte.
pub proof fn lemma_madt_head(t: Seq<u8>, m: MadtView)
    requires
        t.len() == 44,
    ensures
        madt_adds(t, m).lapic_address == bytes::le_u32(t, 36),
        madt_adds(t, m).has_legacy_pics <==> t[40] % 2 == 1,
        madt_adds(t, m).cpus == m.cpus,
        madt_adds(t, m).ioapics == m.ioapics,
        madt_adds(t, m).overrides == m.overrides,
{
    bytes::lemma_least_first(t, 40);
}

/// A table says its length in its fifth to eighth byte. It is at least a header
/// and less than a mebibyte.
pub proof fn lemma_table_length(hdr: Seq<u8>, n: int)
    requires
        hdr.len() >= 36,
        n == hdr[4] + 256 * hdr[5] + 65536 * hdr[6] + 16777216 * hdr[7],
    ensures
        length_of(hdr) is Some <==> 36 <= n && n < 1048576,
        length_of(hdr) matches Some(k) ==> k == n,
{
}

} // verus!
