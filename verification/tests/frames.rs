//! Physical frames and the memory objects made of them.
use k1k::kernel::bitmap::{is_used, set_free, set_used, Bitmap};
use k1k::kernel::memory::{MemTable, MemoryObject};
use k1k::kernel::pmm::{
    alloc_contiguous_frames, alloc_frame, free_frame, init, phys_to_virt, plan, stats, Entry,
    MemKind, Plan, Reclaim,
};

fn entry(base: u64, length: u64, kind: MemKind) -> Entry {
    Entry { base, length, kind }
}

fn machine(frames: u64) -> (Bitmap, Vec<u64>) {
    let map = [entry(0, frames * 4096, MemKind::Usable)];
    let p = plan(&map).unwrap();
    let mut bits = vec![0u64; p.words as usize];
    let bm = init(&map, &p, &mut bits);
    (bm, bits)
}

#[test]
fn bits_of_the_map() {
    let mut bits = [0u64; 2];
    assert!(!is_used(&bits, 65));
    set_used(&mut bits, 65);
    assert!(is_used(&bits, 65));
    assert_eq!(bits, [0, 2]);
    set_free(&mut bits, 65);
    assert_eq!(bits, [0, 0]);
}

#[test]
fn map_goes_into_the_largest_region() {
    let map = [
        entry(0, 0x9F000, MemKind::Usable),
        entry(0x9F000, 0x61000, MemKind::Other),
        entry(0x10_0000, 0x80_0000, MemKind::Usable),
        entry(0x90_0000, 0x1_0000, MemKind::Reclaimable),
        entry(0xFD00_0000, 0x1_0000, MemKind::Other),
    ];
    let p = plan(&map).unwrap();
    assert_eq!(p, Plan { frames: 0x910, words: 37, region: 2, over_budget: false });
    let mut bits = vec![0u64; 37];
    let mut bm = init(&map, &p, &mut bits);
    assert_eq!(bm.total_usable, 0x9F + 0x800);
    // One frame holds the map itself.
    assert_eq!(bm.free, 0x9F + 0x800 - 1);
    assert!(!is_used(&bits, 0));
    assert!(!is_used(&bits, 0x9E));
    assert!(is_used(&bits, 0x9F));
    assert!(is_used(&bits, 0x100));
    assert!(!is_used(&bits, 0x101));
    assert!(is_used(&bits, 0x900));
    let s = stats(&bm);
    assert_eq!(s.total_usable_kib, (0x9F + 0x800) * 4);
    assert_eq!(s.free_kib, (0x9F + 0x800 - 1) * 4);

    let mut r = Reclaim::new(&map);
    assert!(!r.bootloader_reclaimed());
    assert_eq!(r.reclaim_bootloader(&mut bm, &mut bits), 0x1_0000);
    assert!(r.bootloader_reclaimed());
    assert!(!is_used(&bits, 0x900));
    assert!(!is_used(&bits, 0x90F));
    assert_eq!(bm.free, 0x9F + 0x800 - 1 + 16);
    assert_eq!(r.reclaim_bootloader(&mut bm, &mut bits), 0);
}

#[test]
fn distant_bootloader_memory_is_left_out() {
    let map = [
        entry(0, 0x10_0000, MemKind::Usable),
        entry(0x100_0000_0000, 0x1000, MemKind::Reclaimable),
    ];
    let p = plan(&map).unwrap();
    assert!(p.over_budget);
    assert_eq!(p.frames, 0x100);
    assert_eq!(plan(&[entry(0, 0x1000, MemKind::Other)]), None);
    // A map of nothing but distant memory does not fit into one frame.
    let far = [entry(0x100_0000_0000, 0x1000, MemKind::Usable)];
    assert_eq!(plan(&far), None);
}

#[test]
fn no_frame_is_handed_out_twice() {
    let (mut bm, mut bits) = machine(130);
    let mut seen: Vec<u64> = Vec::new();
    while let Some(f) = alloc_frame(&mut bm, &mut bits) {
        assert_eq!(f % 4096, 0);
        assert!(!seen.contains(&f));
        seen.push(f);
    }
    assert_eq!(seen.len(), 129);
    assert_eq!(bm.free, 0);
    free_frame(&mut bm, &mut bits, seen[17]);
    assert_eq!(bm.free, 1);
    assert_eq!(alloc_frame(&mut bm, &mut bits), Some(seen[17]));
    assert_eq!(alloc_frame(&mut bm, &mut bits), None);
}

#[test]
fn contiguous_frames_are_adjacent() {
    let (mut bm, mut bits) = machine(64);
    // Leave a hole of two frames, then ask for three.
    let all: Vec<u64> = (0..6).map(|_| alloc_frame(&mut bm, &mut bits).unwrap()).collect();
    free_frame(&mut bm, &mut bits, all[1]);
    free_frame(&mut bm, &mut bits, all[2]);
    let start = alloc_contiguous_frames(&mut bm, &mut bits, 3).unwrap();
    assert_eq!(start, all[5] + 4096);
    assert_eq!(alloc_contiguous_frames(&mut bm, &mut bits, 2), Some(all[1]));
    assert_eq!(alloc_contiguous_frames(&mut bm, &mut bits, 64), None);
    assert_eq!(alloc_contiguous_frames(&mut bm, &mut bits, 0), None);
    assert_eq!(phys_to_virt(0xFFFF_8000_0000_0000, 0x1000), 0xFFFF_8000_0000_1000);
}

#[test]
fn memory_objects_take_all_frames_or_none() {
    let (mut bm, mut bits) = machine(20);
    let o = MemoryObject::new(&mut bm, &mut bits, 5).unwrap();
    assert_eq!(o.pages(), 5);
    assert_eq!(bm.free, 14);
    assert!(MemoryObject::new(&mut bm, &mut bits, 15).is_none());
    assert_eq!(bm.free, 14);
    let c = MemoryObject::contiguous(&mut bm, &mut bits, 4).unwrap();
    for i in 1..4 {
        assert_eq!(c.frames[i], c.frames[0] + 4096 * i as u64);
    }
}

#[test]
fn contiguous_memory_is_the_lowest_run() {
    let (mut bm, mut bits) = machine(20);
    let all: Vec<u64> = (0..19).map(|_| alloc_frame(&mut bm, &mut bits).unwrap()).collect();
    for i in [1, 4, 5, 9, 10, 11] {
        free_frame(&mut bm, &mut bits, all[i]);
    }
    let c = MemoryObject::contiguous(&mut bm, &mut bits, 2).unwrap();
    assert_eq!(c.frames, [all[4], all[5]]);
    let c = MemoryObject::contiguous(&mut bm, &mut bits, 1).unwrap();
    assert_eq!(c.frames, [all[1]]);
    assert!(MemoryObject::contiguous(&mut bm, &mut bits, 4).is_none());
}

#[test]
fn usable_frames_are_counted_entry_by_entry() {
    let map = [
        entry(0, 0x1_0000, MemKind::Usable),
        entry(0x8000, 0x1_0000, MemKind::Usable),
    ];
    let p = plan(&map).unwrap();
    let mut bits = vec![0u64; p.words as usize];
    let bm = init(&map, &p, &mut bits);
    // Sixteen frames each, eight of them in both.
    assert_eq!(bm.total_usable, 32);
    assert_eq!(bm.free, 24 - 1);
}

#[test]
fn last_reference_frees_the_frames() {
    let (mut bm, mut bits) = machine(20);
    let mut t = MemTable::new();
    let a = t.create(&mut bm, &mut bits, 3, false).unwrap();
    let b = t.create(&mut bm, &mut bits, 2, true).unwrap();
    assert_ne!(a, b);
    assert_eq!(bm.free, 14);
    t.retain(a);
    t.release(a, &mut bm, &mut bits);
    assert_eq!(bm.free, 14);
    t.release(a, &mut bm, &mut bits);
    assert_eq!(bm.free, 17);
    // The number is used again.
    assert_eq!(t.create(&mut bm, &mut bits, 1, false), Some(a));
    assert_eq!(t.create(&mut bm, &mut bits, 100, false), None);
    assert_eq!(bm.free, 16);
}
