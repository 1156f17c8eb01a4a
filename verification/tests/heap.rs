//! The service allocator, driven over a byte range and audited by an independent
//! reading of the block headers.
use k1k::rt::audit::{audit, Fault, Live};
use k1k::rt::blocks::{get_word, put_word};
use k1k::rt::heap::{HeapStats, K1kHeap, Layout, Outcome};
use k1k::rt::info::{BootInfo, INFO_LAYOUT, INFO_MAGIC};

const BASE: u64 = 0x1_0000_0000;

struct Rig {
    heap: K1kHeap,
    mem: Vec<u8>,
}

fn info(base: u64, size: u64) -> Option<BootInfo> {
    Some(BootInfo {
        magic: INFO_MAGIC,
        layout: INFO_LAYOUT,
        task_id: 1,
        _pad: 0,
        heap_base: base,
        heap_size: size,
        stack_top: 0,
        arg_len: 0,
    })
}

impl Rig {
    fn new(size: usize) -> Self {
        Rig {
            heap: K1kHeap::new(),
            mem: vec![0u8; size],
        }
    }

    fn get(&mut self, size: u64, align: u64) -> Outcome {
        let i = info(BASE, self.mem.len() as u64);
        self.heap
            .allocate(&mut self.mem, i, Layout { size, align })
    }

    fn take(&mut self, size: u64, align: u64) -> u64 {
        self.get(size, align).ptr
    }

    fn free(&mut self, ptr: u64) {
        self.heap.dealloc(&mut self.mem, ptr)
    }

    fn grow(&mut self, ptr: u64, size: u64, align: u64, new_size: u64) -> u64 {
        let i = info(BASE, self.mem.len() as u64);
        self.heap
            .realloc(&mut self.mem, i, ptr, Layout { size, align }, new_size)
            .ptr
    }

    fn stats(&self) -> HeapStats {
        self.heap.heap_stats()
    }

    fn audit(&self, live: &[Live]) -> Result<(), Fault> {
        audit(&self.mem, BASE, self.stats(), live)
    }

    fn fill(&mut self, ptr: u64, len: u64, b: u8) {
        let at = (ptr - BASE) as usize;
        for x in &mut self.mem[at..at + len as usize] {
            *x = b;
        }
    }

    fn holds(&self, ptr: u64, len: u64, b: u8) -> bool {
        let at = (ptr - BASE) as usize;
        self.mem[at..at + len as usize].iter().all(|x| *x == b)
    }
}

struct Held {
    ptr: u64,
    size: u64,
    align: u64,
    pattern: u8,
    valid: u64,
}

fn held(rig: &mut Rig, ptr: u64, size: u64, align: u64, pattern: u8) -> Held {
    rig.fill(ptr, size, pattern);
    Held {
        ptr,
        size,
        align,
        pattern,
        valid: size,
    }
}

fn lives(all: &[Held]) -> Vec<Live> {
    all.iter()
        .map(|h| Live {
            ptr: h.ptr,
            valid: h.valid,
        })
        .collect()
}

struct Rng(u64);

impl Rng {
    fn next(&mut self) -> u64 {
        let mut x = self.0;
        x ^= x << 13;
        x ^= x >> 7;
        x ^= x << 17;
        self.0 = x;
        x
    }

    fn below(&mut self, n: u64) -> u64 {
        self.next() % n
    }
}

#[test]
fn fresh_heap_audits_clean() {
    let rig = Rig::new(4096);
    assert_eq!(rig.audit(&[]), Ok(()));
    assert_eq!(
        rig.audit(&[Live { ptr: BASE + 32, valid: 1 }]),
        Err(Fault::LiveInFresh)
    );
}

#[test]
fn every_size_and_alignment_lives_at_once() {
    let mut rig = Rig::new(1 << 20);
    let mut live: Vec<Held> = Vec::new();
    for size in [1u64, 2, 7, 15, 16, 17, 31, 32, 33, 63, 64, 100, 511, 4096, 9000] {
        let p = rig.take(size, 1);
        assert_ne!(p, 0);
        let h = held(&mut rig, p, size, 1, 0xA5);
        live.push(h);
    }
    for align in [2u64, 4, 8, 16, 32, 64, 128, 256, 1024, 4096] {
        let size = align * 2 + 1;
        let p = rig.take(size, align);
        assert_ne!(p, 0);
        assert_eq!(p % align, 0);
        let h = held(&mut rig, p, size, align, 0x3C);
        live.push(h);
    }
    for i in 0..live.len() {
        for j in i + 1..live.len() {
            let (a, al) = (live[i].ptr, live[i].size);
            let (c, cl) = (live[j].ptr, live[j].size);
            assert!(!(a < c + cl && c < a + al));
        }
    }
    assert_eq!(rig.audit(&lives(&live)), Ok(()));
    for l in &live {
        assert!(rig.holds(l.ptr, l.size, l.pattern));
    }
    for l in &live {
        rig.free(l.ptr);
    }
    assert_eq!(rig.audit(&[]), Ok(()));
    assert_eq!(rig.stats().in_use, 0);
    assert_eq!(rig.stats().live, 0);
}

#[test]
fn fragmented_space_comes_back() {
    let size = 1u64 << 20;
    let mut rig = Rig::new(size as usize);
    let mut ptrs: Vec<u64> = Vec::new();
    for _ in 0..400 {
        let p = rig.take(2000, 16);
        if p == 0 {
            break;
        }
        rig.fill(p, 2000, 0x11);
        ptrs.push(p);
    }
    assert_eq!(ptrs.len(), 400);
    let mut rng = Rng(0x9E37_79B9_7F4A_7C15);
    while !ptrs.is_empty() {
        let i = rng.below(ptrs.len() as u64) as usize;
        let p = ptrs.swap_remove(i);
        rig.free(p);
    }
    assert_eq!(rig.audit(&[]), Ok(()));
    assert_eq!(rig.stats().in_use, 0);
    assert_eq!(rig.stats().live, 0);
    let p = rig.take(size / 2, 16);
    assert_ne!(p, 0);
    rig.free(p);
    // One free block again: the whole range in a single header.
    assert_eq!(get_word(&rig.mem, BASE, BASE), size + 1);
    assert_eq!(get_word(&rig.mem, BASE, BASE + 8), 0);
}

#[test]
fn exhaustion_is_counted_and_reported() {
    let size = 1u64 << 20;
    let mut rig = Rig::new(size as usize);
    let mut ptrs: Vec<u64> = Vec::new();
    let text = loop {
        let o = rig.get(64 * 1024, 16);
        if o.ptr == 0 {
            break o.report.unwrap();
        }
        assert!(o.report.is_none());
        ptrs.push(o.ptr);
    };
    assert_eq!(ptrs.len(), 15);
    assert_eq!(rig.stats().failures, 1);
    let line = String::from_utf8(text.as_bytes().to_vec()).unwrap();
    assert_eq!(
        line,
        format!(
            "heap: allocation of 65536 bytes failed ({} B in use, peak {} B, failures 1)\n",
            rig.stats().in_use,
            rig.stats().peak
        )
    );
    assert_eq!(rig.take(size * 2, 16), 0);
    assert_eq!(rig.stats().failures, 2);
    // Only the first few failures are reported.
    assert!(rig.get(size * 2, 16).report.is_some());
    assert!(rig.get(size * 2, 16).report.is_none());
    for p in ptrs {
        rig.free(p);
    }
    assert_eq!(rig.stats().in_use, 0);
}

#[test]
fn growth_carries_the_old_bytes() {
    let mut rig = Rig::new(4 << 20);
    let mut p = rig.take(1, 1);
    let mut size = 1u64;
    rig.fill(p, 1, 0x5A);
    for _ in 0..18 {
        let want = size * 2;
        let q = rig.grow(p, size, 1, want);
        assert_ne!(q, 0);
        assert!(rig.holds(q, size, 0x5A));
        rig.fill(q + size, want - size, 0x5A);
        p = q;
        size = want;
        assert_eq!(rig.audit(&[Live { ptr: p, valid: size }]), Ok(()));
    }
    rig.free(p);
    assert_eq!(rig.audit(&[]), Ok(()));
}

/// Take, release and resize at random, looking at the whole heap after every
/// `every` rounds. Returns how often there was no room.
fn churn(heap: usize, rounds: u32, every: u32) -> u32 {
    let mut rig = Rig::new(heap);
    let mut rng = Rng(0x2545_F491_4F6C_DD1D);
    let mut live: Vec<Held> = Vec::new();
    let mut pattern = 1u8;
    let mut refused = 0u32;
    for round in 0..rounds {
        let roll = rng.below(100);
        if roll < 45 || live.is_empty() {
            let size = 1 + rng.below(3000);
            let align = 1u64 << rng.below(8);
            let p = rig.take(size, align);
            if p == 0 {
                refused += 1;
                continue;
            }
            assert_eq!(p % align, 0);
            pattern = pattern.wrapping_add(1).max(1);
            let h = held(&mut rig, p, size, align, pattern);
            live.push(h);
        } else if roll < 72 {
            let i = rng.below(live.len() as u64) as usize;
            let l = live.swap_remove(i);
            rig.free(l.ptr);
        } else {
            let i = rng.below(live.len() as u64) as usize;
            let new_size = 1 + rng.below(6000);
            let q = rig.grow(live[i].ptr, live[i].size, live[i].align, new_size);
            if q == 0 {
                refused += 1;
                continue;
            }
            assert_eq!(q % live[i].align, 0);
            let kept = live[i].valid.min(new_size);
            assert!(rig.holds(q, kept, live[i].pattern));
            live[i].ptr = q;
            live[i].valid = kept;
            live[i].size = new_size;
        }
        if round % every == 0 {
            assert_eq!(rig.audit(&lives(&live)), Ok(()));
        }
        if round % 256 == 0 {
            for l in &live {
                assert!(rig.holds(l.ptr, l.valid, l.pattern));
            }
        }
    }
    for l in &live {
        assert!(rig.holds(l.ptr, l.valid, l.pattern));
        rig.free(l.ptr);
    }
    assert_eq!(rig.stats().in_use, 0);
    assert_eq!(rig.stats().live, 0);
    assert_eq!(rig.audit(&[]), Ok(()));
    refused
}

#[test]
fn churn_keeps_every_block_intact() {
    assert!(churn(128 * 1024, 3000, 1) > 0);
}

#[test]
fn a_long_churn_on_a_large_heap() {
    churn(8 << 20, 50_000, 5000);
}

/// Taken, grown, moved and shrunk beside blocks in use, then all released in
/// another order: the heap is one block again.
#[test]
fn the_space_comes_back_after_resizing() {
    let size = 1u64 << 20;
    let mut rig = Rig::new(size as usize);
    let mut held = Vec::new();
    for _ in 0..100 {
        held.push(rig.take(2000, 16));
    }
    // Shrunk beside a block in use, and grown into what that left.
    for i in (0..98).step_by(2) {
        assert_eq!(rig.grow(held[i], 2000, 16, 500), held[i]);
        assert_eq!(rig.grow(held[i], 500, 16, 1500), held[i]);
    }
    // Moved.
    held[1] = rig.grow(held[1], 2000, 16, 9000);
    assert_ne!(held[1], 0);
    for i in [97usize, 3, 50, 51, 49].into_iter().chain(0..100) {
        if held[i] != 0 {
            rig.free(held[i]);
            held[i] = 0;
        }
    }
    assert_eq!((rig.stats().in_use, rig.stats().live), (0, 0));
    assert_eq!(rig.audit(&[]), Ok(()));
    assert_ne!(rig.take(size / 2, 16), 0);
    // Nearly all of it, as there is only one block.
    let mut rig2 = Rig::new(4096);
    let a = rig2.take(100, 16);
    rig2.free(a);
    assert_ne!(rig2.take(4096 - 48, 16), 0);
}

/// Cut down beside a free block, the tail stays a block of its own.
#[test]
fn a_tail_is_not_joined_to_the_free_block_after_it() {
    let mut rig = Rig::new(4096);
    let a = rig.take(2000, 16);
    assert_eq!(rig.grow(a, 2000, 16, 100), a);
    assert!(4096 - rig.stats().in_use > 3000);
    assert_eq!(rig.take(2500, 16), 0);
    assert_ne!(rig.take(1500, 16), 0);
    assert_ne!(rig.take(1500, 16), 0);
}

#[test]
fn first_fit_and_block_sizes() {
    let mut rig = Rig::new(4096);
    // Header, payload and slack, rounded up to sixteen.
    let a = rig.take(1, 1);
    assert_eq!(a, BASE + 32);
    assert_eq!(rig.stats().in_use, 48);
    let b = rig.take(100, 8);
    assert_eq!(b, BASE + 48 + 32);
    assert_eq!(rig.stats().in_use, 48 + 160);
    let c = rig.take(16, 16);
    assert_eq!(c, BASE + 48 + 160 + 32);
    rig.free(b);
    // The hole is the first fit.
    assert_eq!(rig.take(90, 8), b);
    assert_eq!(rig.stats().allocs, 4);
    assert_eq!(rig.stats().frees, 1);
}

#[test]
fn zero_sized_requests_get_an_address() {
    let mut rig = Rig::new(4096);
    let a = rig.take(0, 1);
    let b = rig.take(0, 1);
    assert_ne!(a, 0);
    assert_ne!(b, 0);
    assert_ne!(a, b);
    rig.free(0);
    assert_eq!(rig.stats().frees, 0);
    assert_eq!(rig.stats().live, 2);
}

#[test]
fn zeroed_memory_is_zero() {
    let mut rig = Rig::new(4096);
    let a = rig.take(64, 16);
    rig.fill(a, 64, 0xFF);
    rig.free(a);
    let i = info(BASE, 4096);
    let o = rig
        .heap
        .alloc_zeroed(&mut rig.mem, i, Layout { size: 64, align: 16 });
    assert_eq!(o.ptr, a);
    assert!(rig.holds(a, 64, 0));
}

#[test]
fn realloc_shrinks_in_place_and_hands_the_tail_back() {
    let mut rig = Rig::new(8192);
    let a = rig.take(2000, 16);
    let before = rig.stats().in_use;
    rig.fill(a, 2000, 7);
    let q = rig.grow(a, 2000, 16, 100);
    assert_eq!(q, a);
    assert!(rig.holds(a, 100, 7));
    assert!(rig.stats().in_use < before);
    assert_eq!(rig.audit(&[Live { ptr: a, valid: 100 }]), Ok(()));
    // Growing again takes the tail without moving.
    assert_eq!(rig.grow(a, 100, 16, 1500), a);
}

#[test]
fn no_boot_info_means_no_memory() {
    let mut h = K1kHeap::new();
    let mut mem = vec![0u8; 256];
    let o = h.allocate(&mut mem, None, Layout { size: 8, align: 8 });
    assert_eq!(o.ptr, 0);
    assert_eq!(h.heap_stats().failures, 1);
    assert_eq!(h.heap_free(None), 0);
    // A heap too small to hold a block, and one that is not aligned.
    let mut h = K1kHeap::new();
    let mut mem = vec![0u8; 40];
    assert_eq!(
        h.allocate(&mut mem, info(BASE, 40), Layout { size: 1, align: 1 }).ptr,
        0
    );
    let mut h = K1kHeap::new();
    let mut mem = vec![0u8; 4096];
    assert_eq!(
        h.allocate(&mut mem, info(BASE + 8, 4096), Layout { size: 1, align: 1 }).ptr,
        0
    );
}

#[test]
fn free_space_is_what_is_not_in_use() {
    let mut rig = Rig::new(4096);
    // Nothing is available from an allocator that never ran.
    assert_eq!(rig.heap.heap_free(info(BASE, 4096)), 0);
    assert_eq!(K1kHeap::new().heap_free(info(BASE, 0x40_0000)), 0);
    let a = rig.take(100, 16);
    assert_eq!(rig.heap.heap_free(info(BASE, 4096)), 4096 - 160);
    rig.free(a);
    assert_eq!(rig.heap.heap_free(info(BASE, 4096)), 4096);
}

#[test]
fn audit_finds_damage() {
    let build = || {
        let mut rig = Rig::new(4096);
        let a = rig.take(100, 16);
        let b = rig.take(100, 16);
        (rig, a, b)
    };
    let (mut rig, _, _) = build();
    put_word(&mut rig.mem, BASE, BASE + 8, 0x10);
    assert_eq!(rig.audit(&[]), Err(Fault::HeaderOutside(0x10)));

    let (mut rig, _, _) = build();
    put_word(&mut rig.mem, BASE, BASE, 168);
    assert_eq!(rig.audit(&[]), Err(Fault::OddSize(BASE)));

    let (mut rig, _, _) = build();
    put_word(&mut rig.mem, BASE, BASE, 32);
    assert_eq!(rig.audit(&[]), Err(Fault::TooSmall(BASE)));

    let (mut rig, _, _) = build();
    put_word(&mut rig.mem, BASE, BASE + 160 + 16, 0);
    assert_eq!(rig.audit(&[]), Err(Fault::BadBack(BASE + 160)));

    let (mut rig, _, _) = build();
    put_word(&mut rig.mem, BASE, BASE, 176);
    assert_eq!(rig.audit(&[]), Err(Fault::NotCovered));

    let (mut rig, _, _) = build();
    rig.heap.in_use += 16;
    assert_eq!(rig.audit(&[]), Err(Fault::WrongInUse));

    let (mut rig, _, _) = build();
    rig.heap.live += 1;
    assert_eq!(rig.audit(&[]), Err(Fault::WrongLive));

    let (mut rig, _, _) = build();
    put_word(&mut rig.mem, BASE, BASE, 176);
    put_word(&mut rig.mem, BASE, BASE + 320, 4096 - 320 - 16 + 1);
    rig.heap.in_use += 16;
    assert_eq!(rig.audit(&[]), Err(Fault::Overlap(BASE)));

    let (rig, a, b) = build();
    assert_eq!(rig.audit(&[Live { ptr: a, valid: 100 }, Live { ptr: b, valid: 100 }]), Ok(()));
    assert_eq!(
        rig.audit(&[Live { ptr: BASE + 4000, valid: 1 }]),
        Err(Fault::Stray(BASE + 4000))
    );
    assert_eq!(
        rig.audit(&[Live { ptr: BASE + 8, valid: 1 }]),
        Err(Fault::InHeader(BASE + 8))
    );
    assert_eq!(
        rig.audit(&[Live { ptr: a, valid: 200 }]),
        Err(Fault::PastEnd(a))
    );
}
