//! Read-only FAT12/16/32 on top of a block reader.
use vstd::prelude::*;
use vstd::string::*;

use crate::bytes;

verus! {

/// A device read in 512-byte sectors. What it holds, how often it failed and what
/// was read of it are ghost: a verified implementation says what they are. One
/// that is not verified leaves them as they are here, where nothing is said of
/// them; that it reads as [`BlockDevice::read`] says is then taken on trust.
pub trait BlockDevice {
    /// The byte at each address of the device. A device that is only ever read
    /// keeps it.
    closed spec fn disk(&self) -> spec_fn(int) -> u8 {
        arbitrary()
    }

    /// How many reads have failed so far.
    closed spec fn faults(&self) -> nat {
        arbitrary()
    }

    /// First sector and number of sectors of every read so far, in order.
    closed spec fn reads(&self) -> Seq<(u64, usize)> {
        arbitrary()
    }

    /// Read `count` 512-byte sectors starting at `lba` into `out`.
    fn read(&mut self, lba: u64, count: usize, out: &mut [u8]) -> (r: Result<(), ()>)
        requires
            old(out)@.len() == count * 512,
        ensures
            final(self).disk() == old(self).disk(),
            final(self).reads() == old(self).reads().push((lba, count)),
            final(out)@.len() == old(out)@.len(),
            r is Ok ==> final(self).faults() == old(self).faults() && final(out)@ == bytes_at(
                old(self).disk(),
                lba * 512,
                count * 512,
            ),
            r is Err ==> final(self).faults() == old(self).faults() + 1,
    ;
}

/// The `n` bytes of a device from address `at`.
pub open spec fn bytes_at(disk: spec_fn(int) -> u8, at: int, n: int) -> Seq<u8> {
    Seq::new(n as nat, |k: int| disk(at + k))
}

/// A device in memory. It fails on reads past its end.
pub struct Image {
    pub bytes: Vec<u8>,
    pub failed: Ghost<nat>,
    pub log: Ghost<Seq<(u64, usize)>>,
}

impl Image {
    pub fn new(bytes: Vec<u8>) -> (r: Self)
        ensures
            r.bytes == bytes,
            r.failed@ == 0,
            r.log@.len() == 0,
    {
        Image { bytes, failed: Ghost(0), log: Ghost(Seq::empty()) }
    }
}

impl BlockDevice for Image {
    open spec fn disk(&self) -> spec_fn(int) -> u8 {
        |i: int|
            if 0 <= i < self.bytes@.len() {
                self.bytes@[i]
            } else {
                0
            }
    }

    open spec fn faults(&self) -> nat {
        self.failed@
    }

    open spec fn reads(&self) -> Seq<(u64, usize)> {
        self.log@
    }

    /// Succeeds if and only if all sectors are there.
    fn read(&mut self, lba: u64, count: usize, out: &mut [u8]) -> (r: Result<(), ()>)
        ensures
            r is Ok <==> (lba + count) * 512 <= old(self).bytes@.len(),
            final(self).bytes == old(self).bytes,
    {
        proof {
            self.log@ = self.log@.push((lba, count));
        }
        let sectors: usize = self.bytes.len() / 512;
        if count > sectors || lba > (sectors - count) as u64 {
            proof {
                self.failed@ = self.failed@ + 1;
            }
            return Err(());
        }
        let at: usize = lba as usize * 512;
        let n: usize = count * 512;
        let mut i: usize = 0;
        while i < n
            invariant
                i <= n,
                n == out@.len(),
                at + n <= self.bytes@.len() <= usize::MAX,
                self.bytes == old(self).bytes,
                self.failed@ == old(self).failed@,
                self.log@ == old(self).log@.push((lba, count)),
                out@.len() == old(out)@.len(),
                forall|k: int| 0 <= k < i ==> #[trigger] out@[k] == self.bytes@[at + k],
            decreases n - i,
        {
            out[i] = self.bytes[at + i];
            i = i + 1;
        }
        assert(out@ =~= bytes_at(self.disk(), lba * 512, count * 512));
        Ok(())
    }
}

/// How a volume stores its cluster chains.
#[derive(Clone, Copy, Debug, PartialEq, Eq, Structural)]
pub enum FatKind {
    Fat12,
    Fat16,
    Fat32,
}

/// One file or subdirectory of a directory.
#[derive(Clone, Copy, Debug)]
pub struct DirEntry {
    pub name: [u8; 11],
    pub attr: u8,
    pub cluster: u32,
    pub size: u32,
}

/// What a directory entry says.
#[verifier::ext_equal]
pub struct Entry {
    pub name: Seq<u8>,
    pub attr: u8,
    pub cluster: u32,
    pub size: u32,
}

impl View for DirEntry {
    type V = Entry;

    open spec fn view(&self) -> Entry {
        Entry { name: self.name@, attr: self.attr, cluster: self.cluster, size: self.size }
    }
}

impl DirEntry {
    /// Whether the entry is a subdirectory.
    pub fn is_dir(&self) -> (r: bool)
        ensures
            r == (self.attr & 0x10 != 0),
    {
        self.attr & 0x10 != 0
    }
}

/// A mounted volume.
pub struct Fat {
    pub kind: FatKind,
    pub bytes_per_sector: u32,
    pub sectors_per_cluster: u32,
    pub fat_start: u32,
    pub root_start: u32,
    pub root_entries: u32,
    pub data_start: u32,
    pub root_cluster: u32,
    pub total_clusters: u32,
    pub label: [u8; 11],
    /// The FAT sector read last, `cached` its address; `u64::MAX` for none.
    pub sector: [u8; 512],
    pub cached: u64,
}

/// Where things are on a volume, as its boot sector says it.
pub struct Geometry {
    pub kind: FatKind,
    pub sectors_per_cluster: int,
    pub fat_start: int,
    pub root_start: int,
    pub root_entries: int,
    pub data_start: int,
    pub root_cluster: int,
    pub total_clusters: int,
    pub label: Seq<u8>,
}

/// Whether a boot sector describes a volume this reader understands: 512-byte
/// sectors, at least one sector per cluster and one FAT, and a data area that
/// starts inside the volume.
pub open spec fn supported(bs: Seq<u8>) -> bool {
    let data_start = layout_of(bs).data_start;
    &&& bytes::le_u16(bs, 11) == 512
    &&& bs[13] != 0
    &&& bs[16] != 0
    &&& data_start <= u32::MAX
    &&& data_start <= total_sectors(bs)
}

/// Size of the volume in sectors.
pub open spec fn total_sectors(bs: Seq<u8>) -> int {
    if bytes::le_u16(bs, 19) != 0 {
        bytes::le_u16(bs, 19) as int
    } else {
        bytes::le_u32(bs, 32) as int
    }
}

/// What a boot sector says of the volume.
pub open spec fn layout_of(bs: Seq<u8>) -> Geometry {
    let fat_size = if bytes::le_u16(bs, 22) != 0 {
        bytes::le_u16(bs, 22) as int
    } else {
        bytes::le_u32(bs, 36) as int
    };
    let root_entries = bytes::le_u16(bs, 17) as int;
    let fat_start = bytes::le_u16(bs, 14) as int;
    let root_start = fat_start + bs[16] * fat_size;
    let data_start = root_start + (root_entries * 32 + 511) / 512;
    let total_clusters = (total_sectors(bs) - data_start) / (bs[13] as int);
    let kind = if bytes::le_u16(bs, 22) == 0 {
        FatKind::Fat32
    } else if total_clusters < 4085 {
        FatKind::Fat12
    } else {
        FatKind::Fat16
    };
    Geometry {
        kind,
        sectors_per_cluster: bs[13] as int,
        fat_start,
        root_start,
        root_entries,
        data_start,
        root_cluster: if kind == FatKind::Fat32 {
            bytes::le_u32(bs, 44) as int
        } else {
            0
        },
        total_clusters,
        label: if kind == FatKind::Fat32 {
            bs.subrange(71, 82)
        } else {
            bs.subrange(43, 54)
        },
    }
}

/// A cluster chain cannot be longer than there are cluster numbers, unless it
/// runs in a circle.
pub const MAX_CHAIN: u32 = 0x1000_0000;

/// The directory entry stored at offset `i`.
pub open spec fn entry_at(b: Seq<u8>, i: int) -> Entry {
    Entry {
        name: b.subrange(i, i + 11),
        attr: b[i + 11],
        cluster: (bytes::le_u16(b, i + 20) * 0x1_0000 + bytes::le_u16(b, i + 26)) as u32,
        size: bytes::le_u32(b, i + 28),
    }
}

/// Whether the entry at offset `i` names a file or a subdirectory: it is not
/// deleted, no volume label and no part of a long name.
pub open spec fn is_real(b: Seq<u8>, i: int) -> bool {
    b[i] != 0xE5 && b[i + 11] & 0x08 == 0
}

/// The files and subdirectories listed from offset `i` on, up to the
/// end-of-directory marker or the end of the buffer, and whether the listing
/// goes on past the buffer.
pub open spec fn scan(b: Seq<u8>, i: int) -> (Seq<Entry>, bool)
    decreases b.len() - i,
{
    if i + 32 > b.len() {
        (Seq::empty(), true)
    } else if b[i] == 0 {
        (Seq::empty(), false)
    } else {
        let rest = scan(b, i + 32);
        if is_real(b, i) {
            (seq![entry_at(b, i)] + rest.0, rest.1)
        } else {
            rest
        }
    }
}

/// What a list of entries says.
pub open spec fn entries(v: Seq<DirEntry>) -> Seq<Entry> {
    v.map_values(|e: DirEntry| e@)
}

impl Fat {
    /// What the volume's fields say of it.
    pub open spec fn geometry(&self) -> Geometry {
        Geometry {
            kind: self.kind,
            sectors_per_cluster: self.sectors_per_cluster as int,
            fat_start: self.fat_start as int,
            root_start: self.root_start as int,
            root_entries: self.root_entries as int,
            data_start: self.data_start as int,
            root_cluster: self.root_cluster as int,
            total_clusters: self.total_clusters as int,
            label: self.label@,
        }
    }

    /// The geometry is in range and the cached sector is the device's.
    pub open spec fn wf(&self, disk: spec_fn(int) -> u8) -> bool {
        &&& self.bytes_per_sector == 512
        &&& 0 < self.sectors_per_cluster < 256
        &&& self.root_entries < 0x1_0000
        &&& self.cached != u64::MAX ==> self.sector@ == bytes_at(disk, self.cached * 512, 512)
    }

    /// Bytes in a cluster.
    pub open spec fn cluster_len(&self) -> int {
        self.sectors_per_cluster * 512
    }

    /// Whether `c` is the number of a cluster whose first sector can be
    /// addressed.
    pub open spec fn cluster_ok(&self, c: u32) -> bool {
        c >= 2 && self.data_start + (c - 2) * self.sectors_per_cluster <= u32::MAX
    }

    /// Address of the first byte of cluster `c`.
    pub open spec fn cluster_at(&self, c: u32) -> int {
        (self.data_start + (c - 2) * self.sectors_per_cluster) * 512
    }

    /// The reads that fetch cluster `c`: its sectors in order, at most 16 at a
    /// time.
    pub open spec fn cluster_reads(&self, c: u32) -> Seq<(u64, usize)> {
        let first = self.data_start + (c - 2) * self.sectors_per_cluster;
        let n = self.sectors_per_cluster as int;
        Seq::new(
            ((n + 15) / 16) as nat,
            |i: int|
                (
                    (first + 16 * i) as u64,
                    if n - 16 * i < 16 {
                        (n - 16 * i) as usize
                    } else {
                        16usize
                    },
                ),
        )
    }

    /// What cluster `c` holds.
    pub open spec fn cluster_data(&self, disk: spec_fn(int) -> u8, c: u32) -> Seq<u8> {
        bytes_at(disk, self.cluster_at(c), self.cluster_len())
    }

    /// The cluster that follows `c`, as the first FAT says.
    pub open spec fn link(&self, disk: spec_fn(int) -> u8, c: u32) -> Option<u32> {
        let start = self.fat_start * 512;
        match self.kind {
            FatKind::Fat32 => {
                let v = bytes::le_u32(bytes_at(disk, start + c * 4, 4), 0) % 0x1000_0000;
                if v < 0x0FFF_FFF8 {
                    Some(v)
                } else {
                    None
                }
            },
            FatKind::Fat16 => {
                let v = bytes::le_u16(bytes_at(disk, start + c * 2, 2), 0) as u32;
                if v < 0xFFF8 {
                    Some(v)
                } else {
                    None
                }
            },
            FatKind::Fat12 => {
                let raw = bytes::le_u16(bytes_at(disk, start + c * 3 / 2, 2), 0) as u32;
                let v = if c % 2 == 0 {
                    raw % 0x1000
                } else {
                    raw / 0x10
                };
                if v < 0xFF8 {
                    Some(v)
                } else {
                    None
                }
            },
        }
    }

    /// What the fixed root directory of a FAT12/16 volume holds.
    pub open spec fn root_data(&self, disk: spec_fn(int) -> u8) -> Seq<u8> {
        bytes_at(disk, self.root_start * 512, (self.root_entries * 32 + 511) / 512 * 512)
    }

    /// The listing of a directory that starts at cluster `c`, and whether it
    /// can be read to its end within `fuel` clusters.
    pub open spec fn chain_listing(&self, disk: spec_fn(int) -> u8, c: u32, fuel: nat) -> (
        Seq<Entry>,
        bool,
    )
        decreases fuel,
    {
        if fuel == 0 || !self.cluster_ok(c) {
            (Seq::empty(), false)
        } else {
            let s = scan(self.cluster_data(disk, c), 0);
            if !s.1 {
                (s.0, true)
            } else {
                match self.link(disk, c) {
                    None => (s.0, true),
                    Some(d) => {
                        let t = self.chain_listing(disk, d, (fuel - 1) as nat);
                        (s.0 + t.0, t.1)
                    },
                }
            }
        }
    }

    /// The listing of a directory; `dir_cluster == 0` means the root directory.
    pub open spec fn listing(&self, disk: spec_fn(int) -> u8, dir_cluster: u32) -> (Seq<Entry>, bool) {
        if dir_cluster == 0 && self.kind != FatKind::Fat32 {
            (scan(self.root_data(disk), 0).0, true)
        } else {
            self.chain_listing(
                disk,
                if dir_cluster == 0 {
                    self.root_cluster
                } else {
                    dir_cluster
                },
                MAX_CHAIN as nat,
            )
        }
    }

    /// The `k`-th cluster of the chain that starts at `c`.
    pub open spec fn chain_at(&self, disk: spec_fn(int) -> u8, c: u32, k: int) -> Option<u32>
        decreases k,
    {
        if k <= 0 {
            Some(c)
        } else {
            match self.chain_at(disk, c, k - 1) {
                None => None,
                Some(d) => self.link(disk, d),
            }
        }
    }

    /// The byte at position `pos` of the file whose chain starts at `c`.
    pub open spec fn file_byte(&self, disk: spec_fn(int) -> u8, c: u32, pos: int) -> u8 {
        disk(
            self.cluster_at(self.chain_at(disk, c, pos / self.cluster_len())->0) + pos
                % self.cluster_len(),
        )
    }

    /// Whether the chain that starts at `c` has readable clusters from its
    /// `first` to its `last`.
    pub open spec fn readable(&self, disk: spec_fn(int) -> u8, c: u32, first: int, last: int) -> bool {
        forall|j: int|
            first <= j <= last ==> {
                &&& (#[trigger] self.chain_at(disk, c, j)) is Some
                &&& self.cluster_ok(self.chain_at(disk, c, j)->0)
            }
    }

    /// How many of the `left` bytes of a file the chain from `c` holds, and
    /// whether every cluster met on the way can be addressed.
    pub open spec fn file_span(&self, disk: spec_fn(int) -> u8, c: u32, left: int) -> (int, bool)
        decreases left,
    {
        if left <= 0 || c < 2 || self.cluster_len() <= 0 {
            (0, true)
        } else if !self.cluster_ok(c) {
            (0, false)
        } else {
            let n = if left < self.cluster_len() {
                left
            } else {
                self.cluster_len()
            };
            match self.link(disk, c) {
                None => (n, true),
                Some(d) => {
                    let t = self.file_span(disk, d, left - n);
                    (n + t.0, t.1)
                },
            }
        }
    }

    /// Read the boot sector and take the volume's geometry from it.
    pub fn mount<D: BlockDevice>(dev: &mut D) -> (r: Result<Self, &'static str>)
        ensures
            final(dev).disk() == old(dev).disk(),
            final(dev).faults() != old(dev).faults() ==> r is Err && r->Err_0@
                == "cannot read boot sector"@,
            final(dev).faults() == old(dev).faults() ==> {
                let bs = bytes_at(old(dev).disk(), 0, 512);
                if bs[510] != 0x55 || bs[511] != 0xAA {
                    r is Err && r->Err_0@ == "no boot signature"@
                } else if !supported(bs) {
                    r is Err && r->Err_0@ == "unsupported geometry"@
                } else {
                    &&& r is Ok
                    &&& r->Ok_0.geometry() == layout_of(bs)
                    &&& r->Ok_0.fat_start == bytes::le_u16(bs, 14)
                    &&& r->Ok_0.root_start - r->Ok_0.fat_start == bs[16] * if bytes::le_u16(bs, 22) != 0 {
                        bytes::le_u16(bs, 22) as int
                    } else {
                        bytes::le_u32(bs, 36) as int
                    }
                    &&& r->Ok_0.wf(old(dev).disk())
                    &&& r->Ok_0.cached == u64::MAX
                }
            },
    {
        let ghost bs0 = bytes_at(dev.disk(), 0, 512);
        let mut bs: [u8; 512] = [0u8; 512];
        match dev.read(0, 1, &mut bs) {
            Err(_) => {
                return Err("cannot read boot sector");
            },
            Ok(_) => {},
        }
        assert(bs@ == bs0);
        if bs[510] != 0x55 || bs[511] != 0xAA {
            return Err("no boot signature");
        }
        let bytes_per_sector: u32 = bytes::get_u16(&bs, 11) as u32;
        let sectors_per_cluster: u32 = bs[13] as u32;
        let reserved: u32 = bytes::get_u16(&bs, 14) as u32;
        let fats: u32 = bs[16] as u32;
        let root_entries: u32 = bytes::get_u16(&bs, 17) as u32;
        let total16: u32 = bytes::get_u16(&bs, 19) as u32;
        let fat_size16: u32 = bytes::get_u16(&bs, 22) as u32;
        let total32: u32 = bytes::get_u32(&bs, 32);
        let fat_size32: u32 = bytes::get_u32(&bs, 36);
        if bytes_per_sector != 512 || sectors_per_cluster == 0 || fats == 0 {
            return Err("unsupported geometry");
        }
        let total: u32 = if total16 != 0 {
            total16
        } else {
            total32
        };
        let fat_size: u32 = if fat_size16 != 0 {
            fat_size16
        } else {
            fat_size32
        };
        let root_sectors: u32 = (root_entries * 32 + 511) / 512;
        assert(0 <= fats * fat_size <= 255 * 0xFFFF_FFFF) by (nonlinear_arith)
            requires
                fats <= 255,
                fat_size <= 0xFFFF_FFFF,
        ;
        let root_start: u64 = reserved as u64 + fats as u64 * fat_size as u64;
        let data_start: u64 = root_start + root_sectors as u64;
        if data_start > total as u64 {
            return Err("unsupported geometry");
        }
        let total_clusters: u32 = (total - data_start as u32) / sectors_per_cluster;
        let kind: FatKind = if fat_size16 == 0 {
            FatKind::Fat32
        } else if total_clusters < 4085 {
            FatKind::Fat12
        } else {
            FatKind::Fat16
        };
        let label_off: usize = if kind == FatKind::Fat32 {
            71
        } else {
            43
        };
        let mut label: [u8; 11] = [0x20u8; 11];
        copy_name(&mut label, &bs, label_off);
        let root_cluster: u32 = if kind == FatKind::Fat32 {
            bytes::get_u32(&bs, 44)
        } else {
            0
        };
        let v: Fat = Fat {
            kind,
            bytes_per_sector,
            sectors_per_cluster,
            fat_start: reserved,
            root_start: root_start as u32,
            root_entries,
            data_start: data_start as u32,
            root_cluster,
            total_clusters,
            label,
            sector: [0u8; 512],
            cached: u64::MAX,
        };
        proof {
            let g = layout_of(bs0);
            assert(g.data_start == data_start);
            assert(supported(bs0));
            assert(v.geometry().label =~= g.label);
        }
        Ok(v)
    }

    /// Bytes in a cluster.
    pub fn cluster_bytes(&self) -> (r: usize)
        requires
            self.bytes_per_sector == 512,
            self.sectors_per_cluster < 256,
        ensures
            r == self.cluster_len(),
    {
        (self.sectors_per_cluster * self.bytes_per_sector) as usize
    }

    /// First sector of a cluster, if it has one that can be addressed.
    fn cluster_lba(&self, cluster: u32) -> (r: Option<u64>)
        requires
            self.sectors_per_cluster < 256,
        ensures
            r is Some <==> self.cluster_ok(cluster),
            r matches Some(lba) ==> lba * 512 == self.cluster_at(cluster) && lba <= u32::MAX,
    {
        if cluster < 2 {
            return None;
        }
        assert(0 <= (cluster - 2) * self.sectors_per_cluster <= 0xFFFF_FFFF * 255) by (nonlinear_arith)
            requires
                2 <= cluster <= 0xFFFF_FFFF,
                self.sectors_per_cluster <= 255,
        ;
        let lba: u64 = self.data_start as u64 + (cluster - 2) as u64 * self.sectors_per_cluster as u64;
        if lba > 0xFFFF_FFFF {
            None
        } else {
            Some(lba)
        }
    }

    /// The same volume, whatever sector is cached.
    pub open spec fn same_volume(&self, other: &Fat) -> bool {
        &&& self.geometry() == other.geometry()
        &&& self.kind == other.kind
        &&& self.sectors_per_cluster == other.sectors_per_cluster
        &&& self.fat_start == other.fat_start
        &&& self.root_start == other.root_start
        &&& self.root_entries == other.root_entries
        &&& self.data_start == other.data_start
        &&& self.root_cluster == other.root_cluster
        &&& self.total_clusters == other.total_clusters
    }

    /// Make sector `lba` the cached one.
    fn fat_sector<D: BlockDevice>(&mut self, dev: &mut D, lba: u64) -> (r: Result<(), ()>)
        requires
            old(self).wf(old(dev).disk()),
            lba < u64::MAX,
        ensures
            final(self).wf(old(dev).disk()),
            final(self).same_volume(old(self)),
            final(dev).disk() == old(dev).disk(),
            r is Ok <==> final(dev).faults() == old(dev).faults(),
            r is Ok ==> final(self).sector@ == bytes_at(old(dev).disk(), lba * 512, 512),
    {
        if self.cached != lba {
            let mut tmp: [u8; 512] = [0u8; 512];
            match dev.read(lba, 1, &mut tmp) {
                Err(_) => {
                    return Err(());
                },
                Ok(_) => {},
            }
            self.sector = tmp;
            self.cached = lba;
        }
        Ok(())
    }

    /// Next cluster in the chain, or `None` at end-of-chain.
    pub fn next_cluster<D: BlockDevice>(&mut self, dev: &mut D, cluster: u32) -> (r: Result<
        Option<u32>,
        (),
    >)
        requires
            old(self).wf(old(dev).disk()),
        ensures
            final(self).wf(old(dev).disk()),
            final(self).same_volume(old(self)),
            final(dev).disk() == old(dev).disk(),
            r is Ok <==> final(dev).faults() == old(dev).faults(),
            r matches Ok(n) ==> n == old(self).link(old(dev).disk(), cluster),
    {
        let ghost disk = dev.disk();
        let fat_start: u64 = self.fat_start as u64;
        match self.kind {
            FatKind::Fat32 => {
                let off: u64 = cluster as u64 * 4;
                match self.fat_sector(dev, fat_start + off / 512) {
                    Err(_) => {
                        return Err(());
                    },
                    Ok(_) => {},
                }
                let at: usize = (off % 512) as usize;
                let v: u32 = bytes::get_u32(&self.sector, at) % 0x1000_0000;
                proof {
                    let e = bytes_at(disk, self.fat_start * 512 + cluster * 4, 4);
                    assert(e =~= self.sector@.subrange(at as int, at + 4));
                    assert(e =~= e.subrange(0, 4));
                    bytes::lemma_le_u32_ext(self.sector@, at as int, e, 0);
                }
                if v < 0x0FFF_FFF8 {
                    Ok(Some(v))
                } else {
                    Ok(None)
                }
            },
            FatKind::Fat16 => {
                let off: u64 = cluster as u64 * 2;
                match self.fat_sector(dev, fat_start + off / 512) {
                    Err(_) => {
                        return Err(());
                    },
                    Ok(_) => {},
                }
                let at: usize = (off % 512) as usize;
                let v: u32 = bytes::get_u16(&self.sector, at) as u32;
                proof {
                    let e = bytes_at(disk, self.fat_start * 512 + cluster * 2, 2);
                    assert(e[0] == self.sector@[at as int] && e[1] == self.sector@[at + 1]);
                }
                if v < 0xFFF8 {
                    Ok(Some(v))
                } else {
                    Ok(None)
                }
            },
            FatKind::Fat12 => {
                let off: u64 = cluster as u64 * 3 / 2;
                match self.fat_sector(dev, fat_start + off / 512) {
                    Err(_) => {
                        return Err(());
                    },
                    Ok(_) => {},
                }
                let at: usize = (off % 512) as usize;
                let lo: u32 = self.sector[at] as u32;
                // The second byte may live in the next sector.
                let hi: u32 = if at == 511 {
                    match self.fat_sector(dev, fat_start + off / 512 + 1) {
                        Err(_) => {
                            return Err(());
                        },
                        Ok(_) => {},
                    }
                    self.sector[0] as u32
                } else {
                    self.sector[at + 1] as u32
                };
                let raw: u32 = lo + hi * 0x100;
                proof {
                    let e = bytes_at(disk, self.fat_start * 512 + cluster * 3 / 2, 2);
                    assert(e[0] == lo && e[1] == hi);
                }
                let v: u32 = if cluster % 2 == 0 {
                    raw % 0x1000
                } else {
                    raw / 0x10
                };
                if v < 0xFF8 {
                    Ok(Some(v))
                } else {
                    Ok(None)
                }
            },
        }
    }

    /// Read a whole cluster to the front of `out`.
    pub fn read_cluster<D: BlockDevice>(&mut self, dev: &mut D, cluster: u32, out: &mut [u8]) -> (r: Result<
        (),
        (),
    >)
        requires
            old(self).wf(old(dev).disk()),
            old(out)@.len() >= old(self).cluster_len(),
        ensures
            *final(self) == *old(self),
            final(dev).disk() == old(dev).disk(),
            final(out)@.len() == old(out)@.len(),
            r is Ok <==> old(self).cluster_ok(cluster) && final(dev).faults() == old(dev).faults(),
            final(dev).faults() == old(dev).faults() || final(dev).faults() == old(dev).faults() + 1,
            r is Ok ==> final(out)@.subrange(0, old(self).cluster_len()) == old(self).cluster_data(
                old(dev).disk(),
                cluster,
            ),
            r is Ok ==> final(dev).reads() == old(dev).reads() + old(self).cluster_reads(cluster),
            !old(self).cluster_ok(cluster) ==> final(dev).reads() == old(dev).reads(),
            r is Err && old(self).cluster_ok(cluster) ==> exists|k: int|
                0 < k <= old(self).cluster_reads(cluster).len() && final(dev).reads() == old(dev).reads()
                    + #[trigger] old(self).cluster_reads(cluster).take(k),
            forall|k: int|
                old(self).cluster_len() <= k < old(out)@.len() ==> final(out)@[k] == old(out)@[k],
    {
        let lba: u64 = match self.cluster_lba(cluster) {
            None => {
                return Err(());
            },
            Some(l) => l,
        };
        let ghost disk = dev.disk();
        let ghost at = self.cluster_at(cluster);
        let sectors: usize = self.sectors_per_cluster as usize;
        let mut done: usize = 0;
        let ghost plan = self.cluster_reads(cluster);
        let ghost mut made: int = 0;
        assert(dev.reads() =~= old(dev).reads() + plan.take(0));
        while done < sectors
            invariant
                done <= sectors < 256,
                sectors == self.sectors_per_cluster,
                *self == *old(self),
                plan == self.cluster_reads(cluster),
                0 <= made <= plan.len(),
                done == if made * 16 < sectors {
                    made * 16
                } else {
                    sectors as int
                },
                dev.reads() == old(dev).reads() + plan.take(made),
                lba <= u32::MAX,
                lba * 512 == at,
                at == self.cluster_at(cluster),
                self.cluster_ok(cluster),
                dev.disk() == disk,
                disk == old(dev).disk(),
                dev.faults() == old(dev).faults(),
                out@.len() == old(out)@.len(),
                sectors * 512 <= out@.len(),
                forall|k: int| 0 <= k < done * 512 ==> #[trigger] out@[k] == disk(at + k),
                forall|k: int| sectors * 512 <= k < out@.len() ==> out@[k] == old(out)@[k],
            decreases sectors - done,
        {
            let n: usize = if sectors - done < 16 {
                sectors - done
            } else {
                16
            };
            let ghost before = out@;
            let ok: bool = read_part(dev, lba + done as u64, n, out, done * 512);
            proof {
                assert(made < plan.len());
                assert(plan[made] == ((lba + done) as u64, n));
                assert(plan.take(made + 1) =~= plan.take(made).push(plan[made]));
                assert(dev.reads() =~= old(dev).reads() + plan.take(made + 1));
                made = made + 1;
            }
            if !ok {
                return Err(());
            }
            proof {
                let off = done * 512;
                assert forall|k: int| 0 <= k < off + n * 512 implies #[trigger] out@[k] == disk(at + k) by {
                    if k >= off {
                        assert(out@[off + (k - off)] == disk((lba + done) * 512 + (k - off)));
                    } else {
                        assert(before[k] == disk(at + k));
                    }
                }
            }
            done = done + n;
        }
        assert(out@.subrange(0, self.cluster_len()) =~= self.cluster_data(disk, cluster));
        assert(plan.take(made) =~= plan);
        Ok(())
    }

    /// List a directory's files and subdirectories, appending them to `out`.
    /// `dir_cluster == 0` means the root directory. A read that fails leaves
    /// what was listed up to there. A chain that runs in a circle or leaves the
    /// volume is an error.
    pub fn read_dir<D: BlockDevice>(
        &mut self,
        dev: &mut D,
        dir_cluster: u32,
        buf: &mut [u8],
        out: &mut Vec<DirEntry>,
    ) -> (r: Result<(), ()>)
        requires
            old(self).wf(old(dev).disk()),
            dir_cluster == 0 && old(self).kind != FatKind::Fat32 ==> old(buf)@.len() >= 512,
            !(dir_cluster == 0 && old(self).kind != FatKind::Fat32) ==> old(buf)@.len() >= old(
                self,
            ).cluster_len(),
        ensures
            final(self).wf(old(dev).disk()),
            final(self).same_volume(old(self)),
            final(dev).disk() == old(dev).disk(),
            final(buf)@.len() == old(buf)@.len(),
            ({
                let (all, ok) = old(self).listing(old(dev).disk(), dir_cluster);
                &&& r is Ok <==> ok && final(dev).faults() == old(dev).faults()
                &&& final(dev).faults() == old(dev).faults() ==> entries(final(out)@) == entries(
                    old(out)@,
                ) + all
                &&& entries(old(out)@).is_prefix_of(entries(final(out)@))
                &&& entries(final(out)@).is_prefix_of(entries(old(out)@) + all)
            }),
    {
        if dir_cluster == 0 && self.kind != FatKind::Fat32 {
            return self.read_root(dev, buf, out);
        }
        let mut cluster: u32 = if dir_cluster == 0 {
            self.root_cluster
        } else {
            dir_cluster
        };
        let ghost disk = dev.disk();
        let ghost all = self.listing(disk, dir_cluster);
        let ghost start = entries(out@);
        let ghost mut seen: Seq<Entry> = Seq::empty();
        let mut fuel: u32 = MAX_CHAIN;
        let cb: usize = self.cluster_bytes();
        while fuel > 0
            invariant
                self.wf(disk),
                self.same_volume(old(self)),
                disk == old(dev).disk(),
                dev.disk() == disk,
                dev.faults() == old(dev).faults(),
                cb == self.cluster_len(),
                buf@.len() == old(buf)@.len(),
                buf@.len() >= cb,
                start == entries(old(out)@),
                all == old(self).listing(disk, dir_cluster),
                entries(out@) == start + seen,
                all.0 == seen + old(self).chain_listing(disk, cluster, fuel as nat).0,
                all.1 == old(self).chain_listing(disk, cluster, fuel as nat).1,
            decreases fuel,
        {
            let ghost rest = old(self).chain_listing(disk, cluster, fuel as nat);
            let ghost data = old(self).cluster_data(disk, cluster);
            proof {
                lemma_prefixes(start, seen, all.0, rest.0);
                assert(self.cluster_data(disk, cluster) == data);
                assert(self.cluster_ok(cluster) == old(self).cluster_ok(cluster));
            }
            match self.read_cluster(dev, cluster, buf) {
                Err(_) => {
                    return Err(());
                },
                Ok(_) => {},
            }
            let part: &[u8] = vstd::slice::slice_subrange(buf, 0, cb);
            let more: bool = scan_entries(part, out);
            let ghost s = scan(data, 0);
            proof {
                seen = seen + s.0;
                assert(entries(out@) =~= start + seen);
                assert(all.0 =~= seen + rest.0.subrange(s.0.len() as int, rest.0.len() as int));
                lemma_prefixes(start, seen, all.0, rest.0.subrange(s.0.len() as int, rest.0.len() as int));
            }
            if !more {
                assert(all.0 =~= seen);
                return Ok(());
            }
            match self.next_cluster(dev, cluster) {
                Err(_) => {
                    return Err(());
                },
                Ok(None) => {
                    assert(all.0 =~= seen);
                    return Ok(());
                },
                Ok(Some(c)) => {
                    proof {
                        assert(old(self).link(disk, cluster) == Some(c));
                        let t = old(self).chain_listing(disk, c, (fuel - 1) as nat);
                        assert(rest == (s.0 + t.0, t.1));
                        assert(all.0 =~= seen + t.0);
                    }
                    cluster = c;
                },
            }
            fuel = fuel - 1;
        }
        proof {
            assert(all.0 =~= seen);
            lemma_prefixes(start, seen, all.0, Seq::empty());
        }
        Err(())
    }

    /// List the fixed root directory of a FAT12/16 volume.
    fn read_root<D: BlockDevice>(&mut self, dev: &mut D, buf: &mut [u8], out: &mut Vec<DirEntry>) -> (r:
        Result<(), ()>)
        requires
            old(self).wf(old(dev).disk()),
            old(buf)@.len() >= 512,
        ensures
            *final(self) == *old(self),
            final(dev).disk() == old(dev).disk(),
            final(buf)@.len() == old(buf)@.len(),
            ({
                let all = scan(old(self).root_data(old(dev).disk()), 0).0;
                &&& r is Ok <==> final(dev).faults() == old(dev).faults()
                &&& r is Ok ==> entries(final(out)@) == entries(old(out)@) + all
                &&& entries(old(out)@).is_prefix_of(entries(final(out)@))
                &&& entries(final(out)@).is_prefix_of(entries(old(out)@) + all)
            }),
    {
        let sectors: usize = ((self.root_entries * 32 + 511) / 512) as usize;
        let ghost disk = dev.disk();
        let ghost full = self.root_data(disk);
        let ghost all = scan(full, 0).0;
        let ghost start = entries(out@);
        let ghost mut seen: Seq<Entry> = Seq::empty();
        let mut done: usize = 0;
        assert(buf.len() == buf@.len());
        let room: usize = if buf.len() / 512 < 16 {
            buf.len() / 512
        } else {
            16
        };
        while done < sectors
            invariant
                *self == *old(self),
                done <= sectors <= 0x1_0000,
                1 <= room <= 16,
                room * 512 <= buf@.len(),
                buf@.len() == old(buf)@.len(),
                disk == old(dev).disk(),
                dev.disk() == disk,
                dev.faults() == old(dev).faults(),
                full == self.root_data(disk),
                full.len() == sectors * 512,
                start == entries(old(out)@),
                all == scan(full, 0).0,
                entries(out@) == start + seen,
                all == seen + scan(full, done * 512).0,
            decreases sectors - done,
        {
            let ghost rest = scan(full, done * 512);
            proof {
                lemma_prefixes(start, seen, all, rest.0);
            }
            let n: usize = if sectors - done < room {
                sectors - done
            } else {
                room
            };
            let ok: bool = read_part(dev, self.root_start as u64 + done as u64, n, buf, 0);
            if !ok {
                return Err(());
            }
            let part: &[u8] = vstd::slice::slice_subrange(buf, 0, n * 512);
            let more: bool = scan_entries(part, out);
            proof {
                let off = done * 512;
                assert forall|k: int| 0 <= k < n * 512 implies #[trigger] part@[k] == full[off + k] by {
                    assert(buf@[0 + k] == disk((self.root_start + done) * 512 + k));
                }
                lemma_scan_part(part@, full, off, 0);
                let s = scan(part@, 0);
                seen = seen + s.0;
                assert(entries(out@) =~= start + seen);
                if more {
                    assert(all =~= seen + scan(full, off + n * 512).0);
                } else {
                    assert(all =~= seen);
                    lemma_prefixes(start, seen, all, Seq::empty());
                }
            }
            if !more {
                return Ok(());
            }
            done = done + n;
        }
        proof {
            assert(all =~= seen);
            lemma_prefixes(start, seen, all, Seq::empty());
        }
        Ok(())
    }

    /// Copy a whole file into `out`, which must hold `entry.size` bytes, reading
    /// through `scratch`, which must hold a cluster. Returns how many bytes the
    /// file's chain had.
    pub fn read_file<D: BlockDevice>(
        &mut self,
        dev: &mut D,
        entry: &DirEntry,
        scratch: &mut [u8],
        out: &mut [u8],
    ) -> (r: Result<usize, ()>)
        requires
            old(self).wf(old(dev).disk()),
            old(scratch)@.len() >= old(self).cluster_len(),
            old(out)@.len() >= entry.size,
        ensures
            final(self).wf(old(dev).disk()),
            final(self).same_volume(old(self)),
            final(dev).disk() == old(dev).disk(),
            final(scratch)@.len() == old(scratch)@.len(),
            final(out)@.len() == old(out)@.len(),
            ({
                let (n, ok) = old(self).file_span(old(dev).disk(), entry.cluster, entry.size as int);
                &&& r is Ok <==> ok && final(dev).faults() == old(dev).faults()
                &&& r matches Ok(m) ==> {
                    &&& m == n
                    &&& forall|k: int|
                        0 <= k < m ==> #[trigger] final(out)@[k] == old(self).file_byte(
                            old(dev).disk(),
                            entry.cluster,
                            k,
                        )
                    &&& forall|k: int| m <= k < old(out)@.len() ==> final(out)@[k] == old(out)@[k]
                }
            }),
    {
        let cb: usize = self.cluster_bytes();
        let size: usize = entry.size as usize;
        let mut cluster: u32 = entry.cluster;
        let mut copied: usize = 0;
        let ghost mut j: int = 0;
        let ghost disk = dev.disk();
        let ghost c0 = entry.cluster;
        let ghost span = self.file_span(disk, c0, size as int);
        while copied < size && cluster >= 2
            invariant_except_break
                size == entry.size,
                c0 == entry.cluster,
                self.wf(disk),
                self.same_volume(old(self)),
                disk == old(dev).disk(),
                dev.disk() == disk,
                dev.faults() == old(dev).faults(),
                cb == self.cluster_len(),
                cb > 0,
                scratch@.len() == old(scratch)@.len(),
                scratch@.len() >= cb,
                out@.len() == old(out)@.len(),
                out@.len() >= size,
                copied <= size,
                j >= 0,
                copied < size ==> copied == j * cb,
                span == old(self).file_span(disk, c0, size as int),
                span.0 == copied + old(self).file_span(disk, cluster, size - copied).0,
                span.1 == old(self).file_span(disk, cluster, size - copied).1,
                old(self).chain_at(disk, c0, j) == Some(cluster),
                forall|k: int| 0 <= k < copied ==> #[trigger] out@[k] == old(self).file_byte(disk, c0, k),
                forall|k: int| copied <= k < out@.len() ==> out@[k] == old(out)@[k],
            ensures
                self.wf(disk),
                self.same_volume(old(self)),
                dev.disk() == disk,
                dev.faults() == old(dev).faults(),
                scratch@.len() == old(scratch)@.len(),
                out@.len() == old(out)@.len(),
                span.0 == copied,
                span.1,
                forall|k: int| 0 <= k < copied ==> #[trigger] out@[k] == old(self).file_byte(disk, c0, k),
                forall|k: int| copied <= k < out@.len() ==> out@[k] == old(out)@[k],
            decreases size - copied,
        {
            proof {
                assert(self.cluster_ok(cluster) == old(self).cluster_ok(cluster));
                assert(self.cluster_data(disk, cluster) == old(self).cluster_data(disk, cluster));
            }
            match self.read_cluster(dev, cluster, scratch) {
                Err(_) => {
                    return Err(());
                },
                Ok(_) => {},
            }
            let n: usize = if size - copied < cb {
                size - copied
            } else {
                cb
            };
            let ghost before = out@;
            let ghost data = old(self).cluster_data(disk, cluster);
            copy_bytes(scratch, 0, out, copied, n);
            proof {
                assert forall|k: int| 0 <= k < copied + n implies #[trigger] out@[k] == old(self).file_byte(
                    disk,
                    c0,
                    k,
                ) by {
                    if k >= copied {
                        let t = k - copied;
                        vstd::arithmetic::div_mod::lemma_fundamental_div_mod_converse(k, cb as int, j, t);
                        assert(out@[copied + t] == scratch@[0 + t]);
                        assert(scratch@.subrange(0, cb as int)[t] == data[t]);
                    } else {
                        assert(before[k] == old(self).file_byte(disk, c0, k));
                    }
                }
                assert((j + 1) * cb == j * cb + cb) by (nonlinear_arith);
            }
            copied = copied + n;
            let next: Option<u32> = match self.next_cluster(dev, cluster) {
                Err(_) => {
                    return Err(());
                },
                Ok(v) => v,
            };
            assert(next == old(self).link(disk, cluster));
            match next {
                Some(c) => {
                    proof {
                        j = j + 1;
                        assert(old(self).chain_at(disk, c0, j) == Some(c));
                    }
                    cluster = c;
                },
                None => {
                    break;
                },
            }
        }
        Ok(copied)
    }

    /// Copy part of a file: `out.len()` bytes starting at `offset`, read
    /// through `scratch` (which must hold at least one cluster). Returns how
    /// many bytes were produced: fewer than asked for at end of file.
    pub fn read_at<D: BlockDevice>(
        &mut self,
        dev: &mut D,
        entry: &DirEntry,
        offset: u64,
        scratch: &mut [u8],
        out: &mut [u8],
    ) -> (r: Result<usize, ()>)
        requires
            old(self).wf(old(dev).disk()),
        ensures
            final(self).wf(old(dev).disk()),
            final(self).same_volume(old(self)),
            final(dev).disk() == old(dev).disk(),
            final(scratch)@.len() == old(scratch)@.len(),
            final(out)@.len() == old(out)@.len(),
            offset >= entry.size || old(out)@.len() == 0 ==> r == Ok::<usize, ()>(0) && final(out)@ == old(
                out,
            )@,
            offset < entry.size && old(out)@.len() > 0 ==> {
                let cl = old(self).cluster_len();
                let want = if old(out)@.len() < entry.size - offset {
                    old(out)@.len() as int
                } else {
                    entry.size - offset
                };
                &&& r is Ok <==> {
                    &&& old(scratch)@.len() >= cl
                    &&& old(self).readable(
                        old(dev).disk(),
                        entry.cluster,
                        offset as int / cl,
                        (offset + want - 1) / cl,
                    )
                    &&& final(dev).faults() == old(dev).faults()
                }
                &&& r matches Ok(m) ==> {
                    &&& m == want
                    &&& forall|k: int|
                        0 <= k < m ==> #[trigger] final(out)@[k] == old(self).file_byte(
                            old(dev).disk(),
                            entry.cluster,
                            offset + k,
                        )
                    &&& forall|k: int| m <= k < old(out)@.len() ==> final(out)@[k] == old(out)@[k]
                }
            },
    {
        assert(out.len() == out@.len() && scratch.len() == scratch@.len());
        let size: u64 = entry.size as u64;
        if offset >= size || out.len() == 0 {
            return Ok(0);
        }
        let want: usize = if (out.len() as u64) < size - offset {
            out.len()
        } else {
            (size - offset) as usize
        };
        let cb: usize = self.cluster_bytes();
        if scratch.len() < cb {
            return Err(());
        }
        let ghost disk = dev.disk();
        let ghost c0 = entry.cluster;
        let ghost cl = self.cluster_len();
        let ghost first = offset as int / cl;
        let ghost last = (offset + want - 1) / cl;
        // Walk to the cluster holding `offset`.
        let mut pos: u64 = offset;
        let mut cluster: u32 = entry.cluster;
        let ghost mut w: int = 0;
        proof {
            assert(first <= last) by {
                vstd::arithmetic::div_mod::lemma_div_is_ordered(offset as int, offset + want - 1, cl);
            }
        }
        while pos >= cb as u64
            invariant
                self.wf(disk),
                self.same_volume(old(self)),
                disk == old(dev).disk(),
                dev.disk() == disk,
                dev.faults() == old(dev).faults(),
                cb == self.cluster_len(),
                cb > 0,
                cl == cb,
                c0 == entry.cluster,
                offset < entry.size,
                0 < want,
                old(out)@.len() > 0,
                out@ == old(out)@,
                scratch@.len() == old(scratch)@.len(),
                want == if old(out)@.len() < entry.size - offset {
                    old(out)@.len() as int
                } else {
                    entry.size - offset
                },
                cl == old(self).cluster_len(),
                first == offset as int / cl,
                last == (offset + want - 1) / cl,
                first <= last,
                w >= 0,
                pos == offset - w * cl,
                old(self).chain_at(disk, c0, w) == Some(cluster),
            decreases pos,
        {
            let ghost w1 = w + 1;
            proof {
                assert(w1 * cl == w * cl + cl) by (nonlinear_arith)
                    requires
                        w1 == w + 1,
                ;
                lemma_below(offset as int, cl, w1);
            }
            pos = pos - cb as u64;
            match self.next_cluster(dev, cluster) {
                Err(_) => {
                    return Err(());
                },
                Ok(None) => {
                    proof {
                        assert(old(self).chain_at(disk, c0, w1) is None);
                        lemma_chain_ends(old(self), disk, c0, w1, first);
                        assert(old(self).chain_at(disk, c0, first) is None);
                    }
                    return Err(());
                },
                Ok(Some(c)) => {
                    cluster = c;
                },
            }
            proof {
                w = w1;
            }
        }
        proof {
            vstd::arithmetic::div_mod::lemma_fundamental_div_mod_converse(
                offset as int,
                cl,
                w,
                pos as int,
            );
        }
        let mut done: usize = 0;
        let mut pos: usize = pos as usize;
        while done < want
            invariant
                self.wf(disk),
                self.same_volume(old(self)),
                disk == old(dev).disk(),
                dev.disk() == disk,
                dev.faults() == old(dev).faults(),
                cb == self.cluster_len(),
                cb > 0,
                cl == cb,
                cl == old(self).cluster_len(),
                c0 == entry.cluster,
                offset < entry.size,
                old(out)@.len() > 0,
                out@.len() == old(out)@.len(),
                scratch@.len() == old(scratch)@.len(),
                scratch@.len() >= cb,
                0 < want <= out@.len(),
                want == if old(out)@.len() < entry.size - offset {
                    old(out)@.len() as int
                } else {
                    entry.size - offset
                },
                first == offset as int / cl,
                last == (offset + want - 1) / cl,
                done <= want,
                0 <= first <= w,
                pos < cb,
                done < want ==> offset + done == w * cl + pos,
                done < want ==> w <= last,
                old(self).chain_at(disk, c0, w) == Some(cluster),
                done < want ==> old(self).readable(disk, c0, first, w - 1),
                done == want ==> old(self).readable(disk, c0, first, last),
                forall|k: int|
                    0 <= k < done ==> #[trigger] out@[k] == old(self).file_byte(disk, c0, offset + k),
                forall|k: int| done <= k < out@.len() ==> out@[k] == old(out)@[k],
            decreases want - done,
        {
            proof {
                assert(self.cluster_ok(cluster) == old(self).cluster_ok(cluster));
                assert(self.cluster_data(disk, cluster) == old(self).cluster_data(disk, cluster));
            }
            match self.read_cluster(dev, cluster, scratch) {
                Err(_) => {
                    assert(old(self).chain_at(disk, c0, w) is Some);
                    return Err(());
                },
                Ok(_) => {},
            }
            let n: usize = if want - done < cb - pos {
                want - done
            } else {
                cb - pos
            };
            let ghost before = out@;
            let ghost data = old(self).cluster_data(disk, cluster);
            copy_bytes(scratch, pos, out, done, n);
            proof {
                assert forall|k: int| 0 <= k < done + n implies #[trigger] out@[k] == old(self).file_byte(
                    disk,
                    c0,
                    offset + k,
                ) by {
                    if k >= done {
                        let t = k - done;
                        vstd::arithmetic::div_mod::lemma_fundamental_div_mod_converse(
                            offset + k,
                            cl,
                            w,
                            pos + t,
                        );
                        assert(out@[done + t] == scratch@[pos + t]);
                        assert(scratch@.subrange(0, cb as int)[pos + t] == data[pos + t]);
                    } else {
                        assert(before[k] == old(self).file_byte(disk, c0, offset + k));
                    }
                }
                assert forall|j: int| first <= j <= w implies (#[trigger] old(self).chain_at(disk, c0, j)) is Some
                    && old(self).cluster_ok(old(self).chain_at(disk, c0, j)->0) by {}
                assert((w + 1) * cl == w * cl + cl) by (nonlinear_arith);
                if done + n == want {
                    vstd::arithmetic::div_mod::lemma_fundamental_div_mod_converse(
                        offset + want - 1,
                        cl,
                        w,
                        pos + n - 1,
                    );
                } else {
                    lemma_below(offset + want - 1, cl, w + 1);
                }
            }
            done = done + n;
            pos = 0;
            if done < want {
                match self.next_cluster(dev, cluster) {
                    Err(_) => {
                        return Err(());
                    },
                    Ok(None) => {
                        proof {
                            assert(old(self).chain_at(disk, c0, w + 1) is None);
                        }
                        return Err(());
                    },
                    Ok(Some(c)) => {
                        cluster = c;
                        proof {
                            assert(old(self).chain_at(disk, c0, w + 1) == Some(c));
                            w = w + 1;
                        }
                    },
                }
            }
        }
        Ok(done)
    }

    /// Find an entry by 8.3 name (case-insensitive, "NAME.EXT" form) in a
    /// directory. A name that does not fit 8.3 never matches rather than
    /// matching a truncated one.
    pub fn lookup<D: BlockDevice>(
        &mut self,
        dev: &mut D,
        dir_cluster: u32,
        name: &[u8],
        buf: &mut [u8],
    ) -> (r: Result<Option<DirEntry>, ()>)
        requires
            old(self).wf(old(dev).disk()),
            dir_cluster == 0 && old(self).kind != FatKind::Fat32 ==> old(buf)@.len() >= 512,
            !(dir_cluster == 0 && old(self).kind != FatKind::Fat32) ==> old(buf)@.len() >= old(
                self,
            ).cluster_len(),
        ensures
            final(self).wf(old(dev).disk()),
            final(self).same_volume(old(self)),
            final(dev).disk() == old(dev).disk(),
            final(buf)@.len() == old(buf)@.len(),
            short_name(name@) is None ==> r == Ok::<Option<DirEntry>, ()>(None) && final(dev).faults()
                == old(dev).faults() && final(dev).reads() == old(dev).reads(),
            short_name(name@) matches Some(want) ==> {
                let (all, ok) = old(self).listing(old(dev).disk(), dir_cluster);
                let at = named(all, want, 0);
                &&& r is Ok <==> ok && final(dev).faults() == old(dev).faults()
                &&& r matches Ok(None) ==> at == all.len()
                &&& r matches Ok(Some(e)) ==> at < all.len() && e@ == all[at]
            },
    {
        let want: [u8; 11] = match stored_name(name) {
            None => {
                return Ok(None);
            },
            Some(w) => w,
        };
        let mut list: Vec<DirEntry> = Vec::new();
        assert(entries(list@) =~= Seq::<Entry>::empty());
        match self.read_dir(dev, dir_cluster, buf, &mut list) {
            Err(_) => {
                return Err(());
            },
            Ok(_) => {},
        }
        assert(entries(list@) =~= old(self).listing(old(dev).disk(), dir_cluster).0);
        Ok(find_named(&list, &want))
    }
}

/// The reads that fetch a cluster go over each of its sectors once, in order, and
/// over no other: each starts where the one before it ends, the first at the
/// first sector, and the last ends with the last.
pub proof fn lemma_cluster_reads(fs: &Fat, c: u32, i: int)
    requires
        fs.cluster_ok(c),
        0 < fs.sectors_per_cluster < 256,
        0 <= i < fs.cluster_reads(c).len(),
    ensures
        ({
            let all = fs.cluster_reads(c);
            let first = fs.cluster_at(c) / 512;
            &&& 1 <= all[i].1 <= 16
            &&& i == 0 ==> all[i].0 == first
            &&& i > 0 ==> all[i].0 == all[i - 1].0 + all[i - 1].1
            &&& i == all.len() - 1 ==> all[i].0 + all[i].1 == first + fs.sectors_per_cluster
        }),
{
    let first = fs.data_start + (c - 2) * fs.sectors_per_cluster;
    assert(first * 512 == fs.cluster_at(c));
    assert(first >= 0) by (nonlinear_arith)
        requires
            first == fs.data_start + (c - 2) * fs.sectors_per_cluster,
            c >= 2,
    ;
}

/// Read `n` sectors into `out` from offset `off` on.
fn read_part<D: BlockDevice>(dev: &mut D, lba: u64, n: usize, out: &mut [u8], off: usize) -> (r: bool)
    requires
        off + n * 512 <= old(out)@.len(),
    ensures
        final(dev).disk() == old(dev).disk(),
        final(dev).reads() == old(dev).reads().push((lba, n)),
        final(out)@.len() == old(out)@.len(),
        r ==> final(dev).faults() == old(dev).faults(),
        !r ==> final(dev).faults() == old(dev).faults() + 1,
        r ==> forall|k: int|
            0 <= k < n * 512 ==> #[trigger] final(out)@[off + k] == (old(dev).disk())(lba * 512 + k),
        forall|k: int|
            0 <= k < old(out)@.len() && !(off <= k < off + n * 512) ==> final(out)@[k] == old(out)@[k],
{
    assert(out.len() == out@.len());
    let (_, rest) = out.split_at_mut(off);
    let (part, _) = rest.split_at_mut(n * 512);
    dev.read(lba, n, part).is_ok()
}

/// What has been listed so far lies between the start and the whole listing.
proof fn lemma_prefixes(start: Seq<Entry>, seen: Seq<Entry>, all: Seq<Entry>, rest: Seq<Entry>)
    requires
        all == seen + rest,
    ensures
        start.is_prefix_of(start + seen),
        (start + seen).is_prefix_of(start + all),
{
    assert(start =~= (start + seen).subrange(0, start.len() as int));
    assert((start + seen) =~= (start + all).subrange(0, (start + seen).len() as int));
}

/// Scanning a directory piece by piece lists the same entries.
proof fn lemma_scan_part(part: Seq<u8>, full: Seq<u8>, off: int, i: int)
    requires
        0 <= off,
        0 <= i <= part.len(),
        off + part.len() <= full.len(),
        part.len() % 32 == 0,
        i % 32 == 0,
        forall|k: int| 0 <= k < part.len() ==> #[trigger] part[k] == full[off + k],
    ensures
        !scan(part, i).1 ==> scan(full, off + i) == scan(part, i),
        scan(part, i).1 ==> scan(full, off + i).0 == scan(part, i).0 + scan(full, off + part.len()).0,
    decreases part.len() - i,
{
    if i + 32 <= part.len() {
        assert(part[i] == full[off + i]);
        assert(part[i + 11] == full[off + (i + 11)]);
        if part[i] != 0 {
            lemma_scan_part(part, full, off, i + 32);
            assert(entry_at(part, i) =~= entry_at(full, off + i)) by {
                assert(part.subrange(i, i + 11) =~= full.subrange(off + i, off + i + 11));
                assert(part[i + 20] == full[off + (i + 20)]);
                assert(part[i + 21] == full[off + (i + 21)]);
                assert(part[i + 26] == full[off + (i + 26)]);
                assert(part[i + 27] == full[off + (i + 27)]);
                assert(part[i + 28] == full[off + (i + 28)]);
                assert(part[i + 29] == full[off + (i + 29)]);
                assert(part[i + 30] == full[off + (i + 30)]);
                assert(part[i + 31] == full[off + (i + 31)]);
            }
            assert(off + i + 32 == off + (i + 32));
            if scan(part, i).1 {
                assert(scan(full, off + i).0 =~= scan(part, i).0 + scan(full, off + part.len()).0);
            }
        }
    } else {
        assert(i == part.len());
        assert(scan(full, off + i).0 =~= Seq::<Entry>::empty() + scan(full, off + part.len()).0);
    }
}

/// Append the files and subdirectories of a directory buffer to `out`. Returns
/// false when the end-of-directory marker was reached.
fn scan_entries(buf: &[u8], out: &mut Vec<DirEntry>) -> (r: bool)
    ensures
        r == scan(buf@, 0).1,
        entries(final(out)@) == entries(old(out)@) + scan(buf@, 0).0,
{
    let ghost all = scan(buf@, 0);
    let ghost start = entries(out@);
    let ghost mut seen: Seq<Entry> = Seq::empty();
    assert(buf.len() == buf@.len());
    let mut i: usize = 0;
    while i < buf.len() && 32 <= buf.len() - i
        invariant
            i <= buf@.len() == buf.len(),
            start == entries(old(out)@),
            all == scan(buf@, 0),
            entries(out@) == start + seen,
            all.0 == seen + scan(buf@, i as int).0,
            all.1 == scan(buf@, i as int).1,
        decreases buf@.len() - i,
    {
        let first: u8 = buf[i];
        if first == 0x00 {
            assert(all.0 =~= seen);
            return false;
        }
        let attr: u8 = buf[i + 11];
        let ghost rest = scan(buf@, i + 32);
        if first != 0xE5 && attr & 0x08 == 0 {
            let mut name: [u8; 11] = [0u8; 11];
            copy_name(&mut name, buf, i);
            let hi: u32 = bytes::get_u16(buf, i + 20) as u32;
            let lo: u32 = bytes::get_u16(buf, i + 26) as u32;
            let e: DirEntry = DirEntry {
                name,
                attr,
                cluster: hi * 0x1_0000 + lo,
                size: bytes::get_u32(buf, i + 28),
            };
            let ghost before = out@;
            out.push(e);
            proof {
                assert(e@ =~= entry_at(buf@, i as int));
                assert(entries(out@) =~= entries(before).push(e@));
                seen = seen.push(e@);
                assert(entries(out@) =~= start + seen);
                assert(all.0 =~= seen + rest.0);
            }
        }
        i = i + 32;
    }
    assert(all.0 =~= seen);
    true
}

/// Copy `n` bytes of `src` from `from` to `dst` from `to` on.
fn copy_bytes(src: &[u8], from: usize, dst: &mut [u8], to: usize, n: usize)
    requires
        from + n <= src@.len(),
        to + n <= old(dst)@.len(),
    ensures
        final(dst)@.len() == old(dst)@.len(),
        forall|k: int| 0 <= k < n ==> #[trigger] final(dst)@[to + k] == src@[from + k],
        forall|k: int|
            0 <= k < old(dst)@.len() && !(to <= k < to + n) ==> final(dst)@[k] == old(dst)@[k],
{
    assert(src.len() == src@.len() && dst.len() == dst@.len());
    let mut i: usize = 0;
    while i < n
        invariant
            i <= n,
            from + n <= src@.len() <= usize::MAX,
            to + n <= dst@.len() <= usize::MAX,
            dst@.len() == old(dst)@.len(),
            forall|k: int| 0 <= k < i ==> #[trigger] dst@[to + k] == src@[from + k],
            forall|k: int|
                0 <= k < old(dst)@.len() && !(to <= k < to + i) ==> dst@[k] == old(dst)@[k],
        decreases n - i,
    {
        dst[to + i] = src[from + i];
        i = i + 1;
    }
}

/// Position of the first entry called `want` at or after `i`, or the length
/// when there is none.
pub open spec fn named(all: Seq<Entry>, want: Seq<u8>, i: int) -> int
    decreases all.len() - i,
{
    if i >= all.len() {
        all.len() as int
    } else if all[i].name == want {
        i
    } else {
        named(all, want, i + 1)
    }
}

/// The first entry called `want`.
fn find_named(list: &Vec<DirEntry>, want: &[u8; 11]) -> (r: Option<DirEntry>)
    ensures
        r is None ==> named(entries(list@), want@, 0) == list@.len(),
        r matches Some(e) ==> named(entries(list@), want@, 0) < list@.len() && e@ == entries(
            list@,
        )[named(entries(list@), want@, 0)],
{
    let ghost all = entries(list@);
    let mut i: usize = 0;
    while i < list.len()
        invariant
            i <= list@.len(),
            all == entries(list@),
            named(all, want@, 0) == named(all, want@, i as int),
        decreases list@.len() - i,
    {
        assert(all[i as int] == list@[i as int]@);
        if same_name(&list[i].name, want) {
            return Some(list[i]);
        }
        i = i + 1;
    }
    None
}

/// Whether two stored names are the same.
fn same_name(a: &[u8; 11], b: &[u8; 11]) -> (r: bool)
    ensures
        r == (a@ == b@),
{
    let mut i: usize = 0;
    while i < 11
        invariant
            i <= 11,
            forall|k: int| 0 <= k < i ==> #[trigger] a@[k] == b@[k],
        decreases 11 - i,
    {
        if a[i] != b[i] {
            assert(a@[i as int] != b@[i as int]);
            return false;
        }
        i = i + 1;
    }
    assert(a@ =~= b@);
    true
}

/// A byte FAT can store in a short name: visible ASCII other than the dot.
pub open spec fn name_byte(b: u8) -> bool {
    0x21 <= b <= 0x7E && b != 0x2E
}

/// The upper case of an ASCII letter; other bytes stay.
pub open spec fn upper(b: u8) -> u8 {
    if 0x61 <= b <= 0x7A {
        (b - 0x20) as u8
    } else {
        b
    }
}

/// The part of a name before its first dot.
pub open spec fn base_part(name: Seq<u8>) -> Seq<u8> {
    name.subrange(0, bytes::find(name, 0x2E, 0))
}

/// The part of a name after its first dot, empty without one.
pub open spec fn ext_part(name: Seq<u8>) -> Seq<u8> {
    let dot = bytes::find(name, 0x2E, 0);
    if dot < name.len() {
        name.subrange(dot + 1, name.len() as int)
    } else {
        Seq::empty()
    }
}

/// The eleven bytes under which a name is stored: base and extension in upper
/// case, each padded with blanks. A name that does not fit, or holds a byte
/// that cannot be stored, has none.
pub open spec fn short_name(name: Seq<u8>) -> Option<Seq<u8>> {
    let base = base_part(name);
    let ext = ext_part(name);
    if 1 <= base.len() <= 8 && ext.len() <= 3 && (forall|i: int|
        0 <= i < base.len() ==> name_byte(#[trigger] base[i])) && (forall|i: int|
        0 <= i < ext.len() ==> name_byte(#[trigger] ext[i])) {
        Some(
            Seq::new(
                11,
                |i: int|
                    if i < base.len() {
                        upper(base[i])
                    } else if 8 <= i < 8 + ext.len() {
                        upper(ext[i - 8])
                    } else {
                        0x20
                    },
            ),
        )
    } else {
        None
    }
}

fn valid_name_byte(b: u8) -> (r: bool)
    ensures
        r == name_byte(b),
{
    0x21 <= b && b <= 0x7E && b != 0x2E
}

/// Convert "name.ext" to its 11-byte 8.3 form, or `None` when it does not fit
/// or holds a byte FAT cannot store. Truncating instead would silently open a
/// different file than the caller asked for.
pub fn to_83(name: &str) -> (r: Option<[u8; 11]>)
    ensures
        r is Some <==> short_name(name.spec_bytes()) is Some,
        r matches Some(n) ==> n@ == short_name(name.spec_bytes())->0,
{
    stored_name(name.as_bytes())
}

/// The 8.3 form of a name given as bytes.
pub fn stored_name(name: &[u8]) -> (r: Option<[u8; 11]>)
    ensures
        r is Some <==> short_name(name@) is Some,
        r matches Some(n) ==> n@ == short_name(name@)->0,
{
    let dot: usize = bytes::find_byte(name, 0x2E, 0);
    assert(name.len() == name@.len());
    let ghost base = base_part(name@);
    let ghost ext = ext_part(name@);
    let ext_at: usize = if dot < name.len() {
        dot + 1
    } else {
        dot
    };
    let ext_len: usize = name.len() - ext_at;
    assert(ext.len() == ext_len);
    if dot == 0 || dot > 8 || ext_len > 3 {
        return None;
    }
    let mut out: [u8; 11] = [0x20u8; 11];
    let mut i: usize = 0;
    while i < dot
        invariant
            i <= dot <= 8,
            dot <= name@.len() == name.len(),
            base == name@.subrange(0, dot as int),
            base == base_part(name@),
            forall|k: int| 0 <= k < i ==> name_byte(#[trigger] base[k]) && out@[k] == upper(base[k]),
            forall|k: int| i <= k < 11 ==> #[trigger] out@[k] == 0x20,
        decreases dot - i,
    {
        let b: u8 = name[i];
        if !valid_name_byte(b) {
            assert(!name_byte(base[i as int]));
            return None;
        }
        out[i] = if 0x61 <= b && b <= 0x7A {
            b - 0x20
        } else {
            b
        };
        i = i + 1;
    }
    let mut j: usize = 0;
    while j < ext_len
        invariant
            j <= ext_len <= 3,
            1 <= dot <= 8,
            ext_at + ext_len == name@.len() == name.len(),
            base.len() == dot,
            base == base_part(name@),
            ext == ext_part(name@),
            ext.len() == ext_len,
            forall|k: int| 0 <= k < ext_len ==> #[trigger] ext[k] == name@[ext_at + k],
            forall|k: int| 0 <= k < dot ==> name_byte(#[trigger] base[k]) && out@[k] == upper(base[k]),
            forall|k: int| 0 <= k < j ==> name_byte(#[trigger] ext[k]) && out@[8 + k] == upper(ext[k]),
            forall|k: int| dot <= k < 8 || 8 + j <= k < 11 ==> #[trigger] out@[k] == 0x20,
        decreases ext_len - j,
    {
        let b: u8 = name[ext_at + j];
        if !valid_name_byte(b) {
            assert(!name_byte(ext[j as int]));
            return None;
        }
        out[8 + j] = if 0x61 <= b && b <= 0x7A {
            b - 0x20
        } else {
            b
        };
        j = j + 1;
    }
    proof {
        let s = short_name(name@)->0;
        assert forall|k: int| 0 <= k < 11 implies #[trigger] out@[k] == s[k] by {
            if 8 <= k < 8 + ext.len() {
                assert(out@[8 + (k - 8)] == upper(ext[k - 8]));
            } else if k < dot {
                assert(base[k] == base[k]);
            }
        }
        assert(out@ =~= s);
    }
    Some(out)
}

/// A position at or past the end of `w` clusters lies in cluster `w` or later.
proof fn lemma_below(x: int, d: int, w: int)
    requires
        d > 0,
        w * d <= x,
    ensures
        w <= x / d,
{
    vstd::arithmetic::div_mod::lemma_fundamental_div_mod(x, d);
    vstd::arithmetic::div_mod::lemma_mod_bound(x, d);
    assert(w <= x / d) by (nonlinear_arith)
        requires
            d > 0,
            w * d <= x,
            x == d * (x / d) + x % d,
            x % d < d,
    ;
}

/// A chain that has ended has no later clusters.
proof fn lemma_chain_ends(f: &Fat, disk: spec_fn(int) -> u8, c: u32, j: int, k: int)
    requires
        0 < j <= k,
        f.chain_at(disk, c, j) is None,
    ensures
        f.chain_at(disk, c, k) is None,
    decreases k - j,
{
    if j < k {
        lemma_chain_ends(f, disk, c, j, k - 1);
    }
}

/// Copy the eleven bytes of a name or a label.
fn copy_name(out: &mut [u8; 11], from: &[u8], off: usize)
    requires
        off + 11 <= from@.len(),
    ensures
        final(out)@ == from@.subrange(off as int, off + 11),
{
    let mut i: usize = 0;
    assert(from.len() == from@.len());
    while i < 11
        invariant
            i <= 11,
            off + 11 <= from@.len() <= usize::MAX,
            forall|k: int| 0 <= k < i ==> #[trigger] out@[k] == from@[off + k],
        decreases 11 - i,
    {
        out[i] = from[off + i];
        i = i + 1;
    }
    assert(out@ =~= from@.subrange(off as int, off + 11));
}

/// What a volume holds does not depend on the sector that is cached.
pub proof fn lemma_same_listing(f: &Fat, g: &Fat, disk: spec_fn(int) -> u8, dir: u32)
    requires
        f.same_volume(g),
    ensures
        f.listing(disk, dir) == g.listing(disk, dir),
{
    assert forall|c: u32, fuel: nat|
        f.chain_listing(disk, c, fuel) == g.chain_listing(disk, c, fuel) by {
        lemma_same_chain(f, g, disk, c, fuel);
    }
}

proof fn lemma_same_chain(f: &Fat, g: &Fat, disk: spec_fn(int) -> u8, c: u32, fuel: nat)
    requires
        f.same_volume(g),
    ensures
        f.chain_listing(disk, c, fuel) == g.chain_listing(disk, c, fuel),
    decreases fuel,
{
    if fuel > 0 {
        assert(f.link(disk, c) == g.link(disk, c));
        match f.link(disk, c) {
            None => {},
            Some(d) => {
                lemma_same_chain(f, g, disk, d, (fuel - 1) as nat);
            },
        }
    }
}

/// What a file holds depends on the volume alone, not on the sector that is
/// cached.
pub proof fn lemma_same_span(f: &Fat, g: &Fat, disk: spec_fn(int) -> u8, c: u32, left: int)
    requires
        f.same_volume(g),
    ensures
        f.file_span(disk, c, left) == g.file_span(disk, c, left),
    decreases left,
{
    if left > 0 && c >= 2 && f.cluster_len() > 0 && f.cluster_ok(c) {
        assert(f.link(disk, c) == g.link(disk, c));
        let n = if left < f.cluster_len() {
            left
        } else {
            f.cluster_len()
        };
        if let Some(d) = f.link(disk, c) {
            lemma_same_span(f, g, disk, d, left - n);
        }
    }
}

/// No more of a file is there than its size says.
pub proof fn lemma_span_bound(f: &Fat, disk: spec_fn(int) -> u8, c: u32, left: int)
    requires
        left >= 0,
    ensures
        0 <= f.file_span(disk, c, left).0 <= left,
    decreases left,
{
    if left > 0 && c >= 2 && f.cluster_len() > 0 && f.cluster_ok(c) {
        let n = if left < f.cluster_len() {
            left
        } else {
            f.cluster_len()
        };
        if let Some(d) = f.link(disk, c) {
            lemma_span_bound(f, disk, d, left - n);
        }
    }
}

proof fn lemma_same_place(f: &Fat, g: &Fat, disk: spec_fn(int) -> u8, c: u32, k: int)
    requires
        f.same_volume(g),
    ensures
        f.chain_at(disk, c, k) == g.chain_at(disk, c, k),
    decreases k,
{
    if k > 0 {
        lemma_same_place(f, g, disk, c, k - 1);
    }
}

pub proof fn lemma_same_byte(f: &Fat, g: &Fat, disk: spec_fn(int) -> u8, c: u32, pos: int)
    requires
        f.same_volume(g),
    ensures
        f.file_byte(disk, c, pos) == g.file_byte(disk, c, pos),
{
    lemma_same_place(f, g, disk, c, pos / f.cluster_len());
}

/// Names are looked up without regard to case: two names that differ in the
/// case of letters alone are stored alike.
pub proof fn lemma_case_ignored(a: Seq<u8>, b: Seq<u8>)
    requires
        a.len() == b.len(),
        forall|i: int| 0 <= i < a.len() ==> upper(#[trigger] a[i]) == upper(b[i]),
    ensures
        short_name(a) == short_name(b),
{
    lemma_find_upper(a, b, 0);
    let (ba, bb) = (base_part(a), base_part(b));
    let (ea, eb) = (ext_part(a), ext_part(b));
    let dot = bytes::find(a, 0x2E, 0);
    bytes::lemma_find(a, 0x2E, 0);
    assert forall|i: int| 0 <= i < ba.len() implies name_byte(#[trigger] ba[i]) == name_byte(bb[i])
        && upper(ba[i]) == upper(bb[i]) by {
        assert(upper(a[i]) == upper(b[i]));
    }
    assert forall|i: int| 0 <= i < ea.len() implies name_byte(#[trigger] ea[i]) == name_byte(eb[i])
        && upper(ea[i]) == upper(eb[i]) by {
        assert(upper(a[dot + 1 + i]) == upper(b[dot + 1 + i]));
    }
    assert(forall|i: int| 0 <= i < bb.len() ==> name_byte(#[trigger] bb[i]) == name_byte(ba[i]));
    assert(forall|i: int| 0 <= i < eb.len() ==> name_byte(#[trigger] eb[i]) == name_byte(ea[i]));
    if short_name(a) is Some {
        assert(short_name(a)->0 =~= short_name(b)->0);
    }
}

proof fn lemma_find_upper(a: Seq<u8>, b: Seq<u8>, i: int)
    requires
        a.len() == b.len(),
        0 <= i <= a.len(),
        forall|k: int| 0 <= k < a.len() ==> upper(#[trigger] a[k]) == upper(b[k]),
    ensures
        bytes::find(a, 0x2E, i) == bytes::find(b, 0x2E, i),
    decreases a.len() - i,
{
    if i < a.len() {
        assert(upper(a[i]) == upper(b[i]));
        lemma_find_upper(a, b, i + 1);
    }
}

/// No name is stored as another one, cut short: names stored alike have the
/// same base and the same extension, up to case.
pub proof fn lemma_no_truncation(a: Seq<u8>, b: Seq<u8>)
    requires
        short_name(a) is Some,
        short_name(a) == short_name(b),
    ensures
        base_part(a).len() == base_part(b).len(),
        ext_part(a).len() == ext_part(b).len(),
        forall|i: int|
            0 <= i < base_part(a).len() ==> upper(#[trigger] base_part(a)[i]) == upper(base_part(b)[i]),
        forall|i: int|
            0 <= i < ext_part(a).len() ==> upper(#[trigger] ext_part(a)[i]) == upper(ext_part(b)[i]),
{
    let (ba, bb) = (base_part(a), base_part(b));
    let (ea, eb) = (ext_part(a), ext_part(b));
    let s = short_name(a)->0;
    let t = short_name(b)->0;
    assert(s == t);
    if ba.len() < bb.len() {
        let k = ba.len() as int;
        assert(s[k] == 0x20);
        assert(name_byte(bb[k]) && t[k] == upper(bb[k]));
    }
    if bb.len() < ba.len() {
        let k = bb.len() as int;
        assert(t[k] == 0x20);
        assert(name_byte(ba[k]) && s[k] == upper(ba[k]));
    }
    if ea.len() < eb.len() {
        let k = ea.len() as int;
        assert(s[8 + k] == 0x20);
        assert(name_byte(eb[k]) && t[8 + k] == upper(eb[k]));
    }
    if eb.len() < ea.len() {
        let k = eb.len() as int;
        assert(t[8 + k] == 0x20);
        assert(name_byte(ea[k]) && s[8 + k] == upper(ea[k]));
    }
    assert forall|i: int| 0 <= i < ba.len() implies upper(#[trigger] ba[i]) == upper(bb[i]) by {
        assert(s[i] == upper(ba[i]) && t[i] == upper(bb[i]));
    }
    assert forall|i: int| 0 <= i < ea.len() implies upper(#[trigger] ea[i]) == upper(eb[i]) by {
        assert(s[8 + i] == upper(ea[i]) && t[8 + i] == upper(eb[i]));
    }
}

/// Whatever reading a whole file yields can be read in parts: every cluster up
/// to the last byte it yields is there.
pub proof fn lemma_whole_file_readable(f: &Fat, disk: spec_fn(int) -> u8, c: u32, size: int)
    requires
        f.wf(disk),
        f.file_span(disk, c, size).1,
        f.file_span(disk, c, size).0 > 0,
    ensures
        f.readable(disk, c, 0, (f.file_span(disk, c, size).0 - 1) / f.cluster_len()),
    decreases size,
{
    let cl = f.cluster_len();
    let n = if size < cl {
        size
    } else {
        cl
    };
    let total = f.file_span(disk, c, size).0;
    let last = (total - 1) / cl;
    assert(f.cluster_ok(c));
    assert(cl > 0);
    match f.link(disk, c) {
        None => {
            assert(total == n);
            vstd::arithmetic::div_mod::lemma_fundamental_div_mod_converse(total - 1, cl, 0, total - 1);
        },
        Some(d) => {
            let t = f.file_span(disk, d, size - n);
            if t.0 > 0 {
                lemma_whole_file_readable(f, disk, d, size - n);
                assert(total == cl + t.0);
                assert(last == (t.0 - 1) / cl + 1) by {
                    vstd::arithmetic::div_mod::lemma_div_plus_one(t.0 - 1, cl);
                }
                assert forall|j: int| 0 <= j <= last implies (#[trigger] f.chain_at(disk, c, j)) is Some
                    && f.cluster_ok(f.chain_at(disk, c, j)->0) by {
                    if j > 0 {
                        lemma_chain_shift(f, disk, c, d, j);
                        assert(f.chain_at(disk, d, j - 1) is Some);
                    }
                }
            } else {
                lemma_span_nonneg(f, disk, d, size - n);
                assert(total == n);
                vstd::arithmetic::div_mod::lemma_fundamental_div_mod_converse(
                    total - 1,
                    cl,
                    0,
                    total - 1,
                );
            }
        },
    }
}

proof fn lemma_span_nonneg(f: &Fat, disk: spec_fn(int) -> u8, c: u32, left: int)
    ensures
        f.file_span(disk, c, left).0 >= 0,
    decreases left,
{
    if !(left <= 0 || c < 2 || f.cluster_len() <= 0) && f.cluster_ok(c) {
        let n = if left < f.cluster_len() {
            left
        } else {
            f.cluster_len()
        };
        match f.link(disk, c) {
            None => {},
            Some(d) => {
                lemma_span_nonneg(f, disk, d, left - n);
            },
        }
    }
}

proof fn lemma_chain_shift(f: &Fat, disk: spec_fn(int) -> u8, c: u32, d: u32, j: int)
    requires
        j >= 1,
        f.link(disk, c) == Some(d),
    ensures
        f.chain_at(disk, c, j) == f.chain_at(disk, d, j - 1),
    decreases j,
{
    if j == 1 {
        assert(f.chain_at(disk, c, 0) == Some(c));
    } else {
        lemma_chain_shift(f, disk, c, d, j - 1);
    }
}

/// The areas of a mounted volume follow each other without gap or overlap, each
/// as long as the boot sector says: the reserved sectors, every copy of the FAT,
/// the root directory in whole sectors, and the clusters, all of which lie inside
/// the volume, with less than one cluster to spare.
pub proof fn lemma_areas(f: &Fat, bs: Seq<u8>)
    requires
        bs.len() == 512,
        supported(bs),
        f.geometry() == layout_of(bs),
    ensures
        ({
            let reserved = bs[14] + 256 * bs[15];
            let copies = bs[16] as int;
            let small = bs[22] + 256 * bs[23];
            let fat_size = if small != 0 {
                small
            } else {
                bs[36] + 256 * bs[37] + 0x1_0000 * bs[38] + 0x100_0000 * bs[39]
            };
            let entries = bs[17] + 256 * bs[18];
            let sectors = bs[19] + 256 * bs[20];
            let volume = if sectors != 0 {
                sectors
            } else {
                bs[32] + 256 * bs[33] + 0x1_0000 * bs[34] + 0x100_0000 * bs[35]
            };
            &&& f.fat_start == reserved
            &&& f.root_start - f.fat_start == copies * fat_size
            &&& f.root_entries == entries
            &&& (f.data_start - f.root_start) * 512 >= entries * 32
            &&& (f.data_start - f.root_start - 1) * 512 < entries * 32
            &&& f.sectors_per_cluster == bs[13]
            &&& f.data_start + f.total_clusters * f.sectors_per_cluster <= volume
            &&& volume < f.data_start + (f.total_clusters + 1) * f.sectors_per_cluster
            &&& f.kind == FatKind::Fat32 <==> small == 0
            &&& f.kind == FatKind::Fat12 <==> small != 0 && f.total_clusters < 4085
            &&& f.kind == FatKind::Fat32 ==> f.root_cluster == bs[44] + 256 * bs[45] + 0x1_0000 * bs[46] + 0x100_0000
                * bs[47]
            &&& forall|i: int|
                0 <= i < 11 ==> #[trigger] f.label@[i] == if small == 0 {
                    bs[71 + i]
                } else {
                    bs[43 + i]
                }
        }),
{
    let g = layout_of(bs);
    assert(f.geometry().root_start == g.root_start);
    assert(f.geometry().data_start == g.data_start);
    assert(f.geometry().total_clusters == g.total_clusters);
    assert(f.geometry().label == g.label);
    let left = total_sectors(bs) - g.data_start;
    let per = bs[13] as int;
    vstd::arithmetic::div_mod::lemma_fundamental_div_mod(left, per);
    vstd::arithmetic::mul::lemma_mul_is_commutative(per, left / per);
    vstd::arithmetic::mul::lemma_mul_is_distributive_add_other_way(per, left / per, 1);
    assert((left / per + 1) * per == left / per * per + per) by (nonlinear_arith);
}

/// Cluster 2 is the first one of the data area, and each further one starts where
/// the one before it ends.
pub proof fn lemma_clusters_adjacent(f: &Fat, c: u32)
    requires
        2 <= c < u32::MAX,
    ensures
        f.cluster_at(2) == f.data_start * 512,
        f.cluster_at((c + 1) as u32) == f.cluster_at(c) + f.cluster_len(),
        f.cluster_len() == 512 * f.sectors_per_cluster,
{
    let n = f.sectors_per_cluster as int;
    assert((c + 1 - 2) * n == (c - 2) * n + n) by (nonlinear_arith);
    assert((2 - 2) * n == 0) by (nonlinear_arith);
}

/// A FAT16 has two bytes for each cluster, which hold the number of the next one.
/// The last eight numbers end the chain.
pub proof fn lemma_link_16(f: &Fat, disk: spec_fn(int) -> u8, c: u32)
    requires
        f.kind == FatKind::Fat16,
    ensures
        ({
            let at = f.fat_start * 512 + 2 * c;
            let v = disk(at) + 256 * disk(at + 1);
            &&& v < 0x1_0000 - 8 ==> f.link(disk, c) == Some(v as u32)
            &&& v >= 0x1_0000 - 8 ==> f.link(disk, c) is None
        }),
{
    let at = f.fat_start * 512 + 2 * c;
    let b = bytes_at(disk, f.fat_start * 512 + c * 2, 2);
    bytes::lemma_least_first(b, 0);
    assert(b[0] == disk(at) && b[1] == disk(at + 1));
}

/// A FAT32 has four bytes for each cluster, of which the upper four bits count for
/// nothing. The last eight numbers end the chain.
pub proof fn lemma_link_32(f: &Fat, disk: spec_fn(int) -> u8, c: u32)
    requires
        f.kind == FatKind::Fat32,
    ensures
        ({
            let at = f.fat_start * 512 + 4 * c;
            let v = disk(at) + 256 * disk(at + 1) + 0x1_0000 * disk(at + 2) + 0x100_0000 * (disk(at + 3) as int % 16);
            &&& v < 0x1000_0000 - 8 ==> f.link(disk, c) == Some(v as u32)
            &&& v >= 0x1000_0000 - 8 ==> f.link(disk, c) is None
        }),
{
    let at = f.fat_start * 512 + 4 * c;
    let b = bytes_at(disk, f.fat_start * 512 + c * 4, 4);
    bytes::lemma_least_first(b, 0);
    assert(b[0] == disk(at) && b[1] == disk(at + 1) && b[2] == disk(at + 2) && b[3] == disk(at + 3));
    let low = b[0] + 256 * b[1] + 0x1_0000 * b[2];
    let h = b[3] as int;
    assert(bytes::le_u32(b, 0) == low + 0x100_0000 * (h % 16) + 0x1000_0000 * (h / 16));
    vstd::arithmetic::div_mod::lemma_fundamental_div_mod_converse(
        bytes::le_u32(b, 0) as int,
        0x1000_0000,
        h / 16,
        low + 0x100_0000 * (h % 16),
    );
}

/// A FAT12 has three bytes for two clusters: the even one has the first byte and
/// the lower half of the second, the odd one the rest. The last eight numbers end
/// the chain.
pub proof fn lemma_link_12(f: &Fat, disk: spec_fn(int) -> u8, c: u32)
    requires
        f.kind == FatKind::Fat12,
    ensures
        ({
            let at = f.fat_start * 512 + 3 * (c as int / 2);
            let v = if c % 2 == 0 {
                disk(at) + 256 * (disk(at + 1) as int % 16)
            } else {
                disk(at + 1) as int / 16 + 16 * disk(at + 2)
            };
            &&& v < 0x1000 - 8 ==> f.link(disk, c) == Some(v as u32)
            &&& v >= 0x1000 - 8 ==> f.link(disk, c) is None
        }),
{
    let start = f.fat_start * 512;
    let at = start + 3 * (c as int / 2);
    let b = bytes_at(disk, start + c * 3 / 2, 2);
    bytes::lemma_least_first(b, 0);
    let raw = bytes::le_u16(b, 0) as int;
    let lo = b[0] as int;
    let hi = b[1] as int;
    if c % 2 == 0 {
        assert(c as int * 3 / 2 == 3 * (c as int / 2));
        assert(b[0] == disk(at) && b[1] == disk(at + 1));
        assert(raw == lo + 256 * (hi % 16) + 0x1000 * (hi / 16));
        vstd::arithmetic::div_mod::lemma_fundamental_div_mod_converse(raw, 0x1000, hi / 16, lo + 256 * (hi % 16));
    } else {
        assert(c as int * 3 / 2 == 3 * (c as int / 2) + 1);
        assert(b[0] == disk(at + 1) && b[1] == disk(at + 2));
        assert(raw == lo % 16 + 16 * (lo / 16 + 16 * hi));
        vstd::arithmetic::div_mod::lemma_fundamental_div_mod_converse(raw, 16, lo / 16 + 16 * hi, lo % 16);
    }
}

/// A file's bytes are those of its clusters, one after the other: up to the end of
/// its first cluster what that holds, and from there on what the rest of the chain
/// holds.
pub proof fn lemma_file_follows_chain(f: &Fat, disk: spec_fn(int) -> u8, c: u32, pos: int)
    requires
        f.wf(disk),
        0 <= pos,
    ensures
        pos < f.cluster_len() ==> f.file_byte(disk, c, pos) == disk(f.cluster_at(c) + pos),
        pos >= f.cluster_len() ==> (f.link(disk, c) matches Some(d) ==> f.file_byte(disk, c, pos) == f.file_byte(
            disk,
            d,
            pos - f.cluster_len(),
        )),
{
    let n = f.cluster_len();
    if pos < n {
        vstd::arithmetic::div_mod::lemma_small_mod(pos as nat, n as nat);
        vstd::arithmetic::div_mod::lemma_basic_div(pos, n);
    } else if let Some(d) = f.link(disk, c) {
        vstd::arithmetic::div_mod::lemma_fundamental_div_mod(pos, n);
        vstd::arithmetic::div_mod::lemma_mod_bound(pos, n);
        assert((pos / n - 1) * n == n * (pos / n) - n) by (nonlinear_arith);
        vstd::arithmetic::div_mod::lemma_fundamental_div_mod_converse(pos - n, n, pos / n - 1, pos % n);
        lemma_below(pos, n, 1);
        lemma_chain_shift(f, disk, c, d, pos / n);
    }
}

/// How much of a file is there: as much as its chain has clusters for, and no more
/// than its size.
pub proof fn lemma_span_steps(f: &Fat, disk: spec_fn(int) -> u8, c: u32, left: int)
    requires
        f.wf(disk),
        f.cluster_ok(c),
    ensures
        0 < left <= f.cluster_len() ==> (f.file_span(disk, c, left).0 == left && f.file_span(disk, c, left).1),
        left > f.cluster_len() && f.link(disk, c) is None ==> f.file_span(disk, c, left) == (f.cluster_len(), true),
        left > f.cluster_len() ==> (f.link(disk, c) matches Some(d) ==> {
            let rest = f.file_span(disk, d, left - f.cluster_len());
            f.file_span(disk, c, left) == (f.cluster_len() + rest.0, rest.1)
        }),
{
    if 0 < left <= f.cluster_len() {
        if let Some(d) = f.link(disk, c) {
            reveal_with_fuel(Fat::file_span, 2);
        }
    }
}

/// The entry at offset `i` of a directory is listed.
pub open spec fn is_listed(b: Seq<u8>, i: int) -> bool {
    &&& 0 <= i && i + 32 <= b.len() && i % 32 == 0
    &&& forall|j: int| 0 <= j <= i && j % 32 == 0 ==> #[trigger] b[j] != 0
    &&& b[i] != 0xE5
    &&& b[i + 11] / 8 % 2 == 0
}

/// A directory lists its entries in order, each once: all that come before the
/// first that starts with 0, but for the deleted ones and those that are no file
/// and no subdirectory. `at` is where each is stored.
pub proof fn lemma_listing(b: Seq<u8>) -> (at: Seq<int>)
    ensures
        at.len() == scan(b, 0).0.len(),
        forall|k: int|
            #![trigger at[k]]
            0 <= k < at.len() ==> {
                let e = scan(b, 0).0[k];
                let i = at[k];
                &&& is_listed(b, i)
                &&& forall|j: int| 0 <= j < 11 ==> #[trigger] e.name[j] == b[i + j]
                &&& e.name.len() == 11
                &&& e.attr == b[i + 11]
                &&& e.cluster == b[i + 26] + 256 * b[i + 27] + 0x1_0000 * b[i + 20] + 0x100_0000 * b[i + 21]
                &&& e.size == b[i + 28] + 256 * b[i + 29] + 0x1_0000 * b[i + 30] + 0x100_0000 * b[i + 31]
            },
        forall|j: int, k: int| #![trigger at[j], at[k]] 0 <= j < k < at.len() ==> at[j] < at[k],
        forall|i: int| #[trigger] is_listed(b, i) ==> at.contains(i),
{
    lemma_listing_from(b, 0)
}

proof fn lemma_listing_from(b: Seq<u8>, from: int) -> (at: Seq<int>)
    requires
        0 <= from,
        from % 32 == 0,
        forall|j: int| 0 <= j < from && j % 32 == 0 ==> #[trigger] b[j] != 0,
    ensures
        at.len() == scan(b, from).0.len(),
        forall|k: int|
            #![trigger at[k]]
            0 <= k < at.len() ==> {
                let e = scan(b, from).0[k];
                let i = at[k];
                &&& from <= i
                &&& is_listed(b, i)
                &&& forall|j: int| 0 <= j < 11 ==> #[trigger] e.name[j] == b[i + j]
                &&& e.name.len() == 11
                &&& e.attr == b[i + 11]
                &&& e.cluster == b[i + 26] + 256 * b[i + 27] + 0x1_0000 * b[i + 20] + 0x100_0000 * b[i + 21]
                &&& e.size == b[i + 28] + 256 * b[i + 29] + 0x1_0000 * b[i + 30] + 0x100_0000 * b[i + 31]
            },
        forall|j: int, k: int| #![trigger at[j], at[k]] 0 <= j < k < at.len() ==> at[j] < at[k],
        forall|i: int| from <= i && #[trigger] is_listed(b, i) ==> at.contains(i),
    decreases b.len() - from,
{
    if from + 32 > b.len() || b[from] == 0 {
        assert forall|i: int| from <= i && #[trigger] is_listed(b, i) implies false by {
            assert(b[from] != 0);
        }
        Seq::empty()
    } else {
        let rest = lemma_listing_from(b, from + 32);
        let a = b[from + 11];
        assert(a & 8 == 0 <==> a / 8 % 2 == 0) by (bit_vector);
        assert forall|i: int| from < i && #[trigger] is_listed(b, i) implies rest.contains(i) by {}
        if is_real(b, from) {
            let at = seq![from] + rest;
            let all = scan(b, from).0;
            let less = scan(b, from + 32).0;
            assert(all =~= seq![entry_at(b, from)] + less);
            bytes::lemma_least_first(b, from + 20);
            bytes::lemma_least_first(b, from + 26);
            bytes::lemma_least_first(b, from + 28);
            assert forall|k: int| #![trigger at[k]] 0 <= k < at.len() implies {
                let e = all[k];
                let i = at[k];
                &&& from <= i
                &&& is_listed(b, i)
                &&& forall|j: int| 0 <= j < 11 ==> #[trigger] e.name[j] == b[i + j]
                &&& e.name.len() == 11
                &&& e.attr == b[i + 11]
                &&& e.cluster == b[i + 26] + 256 * b[i + 27] + 0x1_0000 * b[i + 20] + 0x100_0000 * b[i + 21]
                &&& e.size == b[i + 28] + 256 * b[i + 29] + 0x1_0000 * b[i + 30] + 0x100_0000 * b[i + 31]
            } by {
                if k > 0 {
                    assert(at[k] == rest[k - 1]);
                    assert(all[k] == less[k - 1]);
                } else {
                    assert(at[k] == from);
                    assert(all[k] == entry_at(b, from));
                }
            }
            assert forall|j: int, k: int| #![trigger at[j], at[k]] 0 <= j < k < at.len() implies at[j] < at[k] by {
                assert(at[k] == rest[k - 1]);
                if j > 0 {
                    assert(at[j] == rest[j - 1]);
                }
            }
            assert forall|i: int| from <= i && #[trigger] is_listed(b, i) implies at.contains(i) by {
                if i == from {
                    assert(at[0] == from);
                } else {
                    let m = choose|m: int| 0 <= m < rest.len() && rest[m] == i;
                    assert(at[m + 1] == i);
                }
            }
            at
        } else {
            rest
        }
    }
}

/// Of several entries of a name the first one counts.
pub proof fn lemma_first_named(all: Seq<Entry>, want: Seq<u8>, i: int, j: int)
    requires
        0 <= i <= j <= all.len(),
        forall|k: int| i <= k < j ==> (#[trigger] all[k]).name != want,
        j < all.len() ==> all[j].name == want,
    ensures
        named(all, want, i) == j,
    decreases j - i,
{
    if i < j {
        assert(all[i].name != want);
        lemma_first_named(all, want, i + 1, j);
    }
}

/// A name of up to eight characters, a dot and up to three more is stored letter by
/// letter in upper case, the part before the dot from the first byte on and the
/// part after it from the ninth on, with blanks in between. Without a dot the last
/// three bytes are blank.
pub proof fn lemma_stored_letters(base: Seq<u8>, ext: Seq<u8>, i: int)
    requires
        1 <= base.len() <= 8,
        ext.len() <= 3,
        forall|k: int| 0 <= k < base.len() ==> 0x21 <= #[trigger] base[k] <= 0x7e && base[k] != 0x2e,
        forall|k: int| 0 <= k < ext.len() ==> 0x21 <= #[trigger] ext[k] <= 0x7e && ext[k] != 0x2e,
        0 <= i < 11,
    ensures
        ({
            let stored = short_name(base + seq![0x2eu8] + ext);
            &&& stored is Some
            &&& stored->0.len() == 11
            &&& i < base.len() ==> same_letter(stored->0[i], base[i])
            &&& 8 <= i < 8 + ext.len() ==> same_letter(stored->0[i], ext[i - 8])
            &&& base.len() <= i < 8 || 8 + ext.len() <= i ==> stored->0[i] == 0x20
            &&& short_name(base) is Some
            &&& i < 8 ==> short_name(base)->0[i] == stored->0[i]
            &&& i >= 8 ==> short_name(base)->0[i] == 0x20
        }),
{
    let name = base + seq![0x2eu8] + ext;
    let n = base.len() as int;
    bytes::lemma_find(name, 0x2E, 0);
    let dot = bytes::find(name, 0x2E, 0);
    assert(name[n] == 0x2e);
    assert forall|k: int| 0 <= k < n implies #[trigger] name[k] != 0x2e by {
        assert(name[k] == base[k]);
    }
    assert(dot == n);
    assert(base_part(name) =~= base);
    assert(ext_part(name) =~= ext);
    bytes::lemma_find(base, 0x2E, 0);
    assert(bytes::find(base, 0x2E, 0) == n);
    assert(base_part(base) =~= base);
}

/// `a` is `b`, or the capital of the small letter `b`; it is no small letter.
pub open spec fn same_letter(a: u8, b: u8) -> bool {
    if b >= 0x61 && b < 0x61 + 26 {
        a + 0x20 == b
    } else {
        a == b
    }
}

/// A name with more than eight characters before its dot, more than three after
/// it, none before it, or two dots is the name of no file.
pub proof fn lemma_unfit_names(name: Seq<u8>, i: int, j: int)
    requires
        0 <= i <= name.len(),
        i < name.len() ==> name[i] == 0x2e,
        forall|k: int| 0 <= k < i ==> #[trigger] name[k] != 0x2e,
    ensures
        i == 0 || i > 8 ==> short_name(name) is None,
        name.len() > i + 4 ==> short_name(name) is None,
        i < j < name.len() && name[j] == 0x2e ==> short_name(name) is None,
        0 <= j < name.len() && (name[j] <= 0x20 || name[j] >= 0x7f) ==> short_name(name) is None,
{
    bytes::lemma_find(name, 0x2E, 0);
    assert(bytes::find(name, 0x2E, 0) == i);
    let base = base_part(name);
    let ext = ext_part(name);
    if i < j < name.len() {
        assert(ext[j - i - 1] == name[j]);
    }
    if 0 <= j < i {
        assert(base[j] == name[j]);
    }
}

/// Numbers below 2 name no cluster; every other one does, as long as its first
/// sector has a number of 32 bits.
pub proof fn lemma_cluster_numbers(f: &Fat, c: u32)
    ensures
        c < 2 ==> !f.cluster_ok(c),
        c >= 2 ==> (f.cluster_ok(c) <==> f.cluster_at(c) < 0x1_0000_0000 * 512),
{
}

} // verus!
