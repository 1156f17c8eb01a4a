//! Physical memory manager: a bitmap frame allocator built from the boot memory
//! map. One bit per 4 KiB frame; the bitmap itself lives in the largest usable
//! region.
use vstd::prelude::*;

use crate::kernel::bitmap;
use crate::kernel::bitmap::Bitmap;

verus! {

pub const FRAME_SIZE: u64 = 4096;

/// End of the largest physical address space.
pub const MAX_PHYS: u64 = 0x10_0000_0000_0000;

/// Bootloader-reclaimable regions that are tracked. A bootloader reports a
/// handful of regions at most.
pub const MAX_RECLAIM: usize = 16;

/// What a region of the memory map is for.
#[derive(Clone, Copy, Debug, PartialEq, Eq, Structural)]
pub enum MemKind {
    Usable,
    Reclaimable,
    Other,
}

/// One region of the boot memory map.
#[derive(Clone, Copy, Debug, PartialEq, Eq, Structural)]
pub struct Entry {
    pub base: u64,
    pub length: u64,
    pub kind: MemKind,
}

impl Entry {
    /// Frame `i` lies in the region.
    pub open spec fn covers(self, i: int) -> bool {
        let first = self.base as int / 4096;
        first <= i < first + self.length as int / 4096
    }

    /// First address past the region.
    pub open spec fn end(self) -> int {
        self.base + self.length
    }
}

/// A memory map as a bootloader reports it: every region inside the physical
/// address space, usable regions in whole frames.
pub open spec fn valid_map(entries: Seq<Entry>) -> bool {
    forall|i: int|
        0 <= i < entries.len() ==> {
            &&& (#[trigger] entries[i]).end() <= MAX_PHYS
            &&& entries[i].kind == MemKind::Usable ==> entries[i].length % 4096 == 0
        }
}

/// End of the highest usable region among the first `n`, of reclaimable ones
/// too if `both`.
pub open spec fn top(entries: Seq<Entry>, n: int, both: bool) -> int
    decreases n,
{
    if n <= 0 {
        0
    } else {
        let e = entries[n - 1];
        let t = top(entries, n - 1, both);
        if (e.kind == MemKind::Usable || (both && e.kind == MemKind::Reclaimable)) && e.end() > t {
            e.end()
        } else {
            t
        }
    }
}

/// `l` is the first of the longest usable regions.
pub open spec fn is_largest(entries: Seq<Entry>, n: int, l: int) -> bool {
    &&& 0 <= l < n
    &&& entries[l].kind == MemKind::Usable
    &&& forall|i: int|
        0 <= i < n && (#[trigger] entries[i]).kind == MemKind::Usable ==> entries[i].length
            <= entries[l].length && (i < l ==> entries[i].length < entries[l].length)
}

/// There is a usable region among the first `n`.
pub open spec fn any_usable(entries: Seq<Entry>, n: int) -> bool {
    exists|i: int| 0 <= i < n && (#[trigger] entries[i]).kind == MemKind::Usable
}

/// Frame `i` lies in one of the first `n` usable regions.
pub open spec fn usable(entries: Seq<Entry>, n: int, i: int) -> bool {
    exists|e: int|
        0 <= e < n && (#[trigger] entries[e]).kind == MemKind::Usable && entries[e].covers(i)
}

/// Frames of the usable regions among the first `n`.
pub open spec fn usable_frames(entries: Seq<Entry>, n: int) -> int
    decreases n,
{
    if n <= 0 {
        0
    } else {
        usable_frames(entries, n - 1) + if entries[n - 1].kind == MemKind::Usable {
            entries[n - 1].length as int / 4096
        } else {
            0
        }
    }
}

/// No frame lies in two usable regions.
pub open spec fn regions_apart(entries: Seq<Entry>) -> bool {
    forall|a: int, b: int, i: int|
        #![trigger entries[a].covers(i), entries[b].covers(i)]
        0 <= a < b < entries.len() && entries[a].kind == MemKind::Usable && entries[b].kind
            == MemKind::Usable ==> !(entries[a].covers(i) && entries[b].covers(i))
}

/// Words of a bitmap for all memory below `end`.
pub open spec fn words_for(end: int) -> int {
    (end / 4096 + 63) / 64
}

/// Where the bitmap goes and how much it covers.
#[derive(Clone, Copy, Debug, PartialEq, Eq, Structural)]
pub struct Plan {
    /// Frames the map covers.
    pub frames: u64,
    /// Words in the map.
    pub words: u64,
    /// Region that holds the map.
    pub region: usize,
    /// Bootloader memory above RAM is left out, the map would be too large.
    pub over_budget: bool,
}

/// The plan a memory map calls for, with the map in region `l`. The map has to
/// reach the highest address that may ever be freed, which includes the
/// bootloader's structures; but it never takes more than an eighth of its
/// region for their sake.
pub open spec fn plan_of(entries: Seq<Entry>, l: int) -> Plan {
    let n = entries.len() as int;
    let over = words_for(top(entries, n, true)) * 8 > entries[l].length as int / 8;
    let end = top(entries, n, !over);
    Plan {
        frames: (end / 4096) as u64,
        words: words_for(end) as u64,
        region: l as usize,
        over_budget: over,
    }
}

/// Decide where the bitmap goes. There is no plan without usable memory, or if
/// even the map of the usable memory does not fit its largest region.
pub fn plan(entries: &[Entry]) -> (r: Option<Plan>)
    requires
        valid_map(entries@),
    ensures
        forall|l: int| #[trigger]
            is_largest(entries@, entries@.len() as int, l) ==> {
                let p = plan_of(entries@, l);
                if p.words * 8 <= entries@[l].length {
                    r == Some(p)
                } else {
                    r is None
                }
            },
        !any_usable(entries@, entries@.len() as int) ==> r is None,
        r matches Some(p) ==> is_largest(entries@, entries@.len() as int, p.region as int),
{
    let mut usable_end: u64 = 0;
    let mut highest: u64 = 0;
    let mut largest: Option<usize> = None;
    assert(entries.len() == entries@.len());
    let mut i: usize = 0;
    while i < entries.len()
        invariant
            i <= entries@.len() == entries.len(),
            valid_map(entries@),
            usable_end == top(entries@, i as int, false),
            highest == top(entries@, i as int, true),
            usable_end <= highest <= MAX_PHYS,
            largest is None <==> !any_usable(entries@, i as int),
            largest matches Some(l) ==> is_largest(entries@, i as int, l as int),
        decreases entries@.len() - i,
    {
        let e: Entry = entries[i];
        assert(entries@[i as int].end() <= MAX_PHYS);
        let end: u64 = e.base + e.length;
        if e.kind == MemKind::Usable {
            if end > usable_end {
                usable_end = end;
            }
            let longer: bool = match largest {
                None => true,
                Some(l) => e.length > entries[l].length,
            };
            assert(any_usable(entries@, i + 1)) by {
                assert(entries@[i as int].kind == MemKind::Usable);
            }
            if longer {
                largest = Some(i);
            }
        } else {
            assert(any_usable(entries@, i + 1) ==> any_usable(entries@, i as int)) by {
                if any_usable(entries@, i + 1) {
                    let k = choose|k: int|
                        0 <= k < i + 1 && (#[trigger] entries@[k]).kind == MemKind::Usable;
                    assert(k < i);
                }
            }
            assert(any_usable(entries@, i as int) ==> any_usable(entries@, i + 1)) by {
                if any_usable(entries@, i as int) {
                    let k = choose|k: int|
                        0 <= k < i && (#[trigger] entries@[k]).kind == MemKind::Usable;
                    assert(entries@[k].kind == MemKind::Usable);
                }
            }
        }
        if (e.kind == MemKind::Usable || e.kind == MemKind::Reclaimable) && end > highest {
            highest = end;
        }
        i = i + 1;
    }
    let ghost n = entries@.len() as int;
    let l: usize = match largest {
        None => {
            assert forall|k: int| !#[trigger] is_largest(entries@, n, k) by {
                if is_largest(entries@, n, k) {
                    assert(entries@[k].kind == MemKind::Usable);
                }
            }
            return None;
        },
        Some(l) => l,
    };
    assert forall|k: int| #[trigger] is_largest(entries@, n, k) implies k == l by {
        assert(entries@[k].kind == MemKind::Usable && entries@[l as int].kind == MemKind::Usable);
    }
    let length: u64 = entries[l].length;
    assert(entries@[l as int].end() <= MAX_PHYS);
    // Never spend more than an eighth of the largest usable region on the map.
    let budget: u64 = length / 8;
    let mut frames: u64 = highest / FRAME_SIZE;
    let mut words: u64 = (frames + 63) / 64;
    let over: bool = words * 8 > budget;
    if over {
        frames = usable_end / FRAME_SIZE;
        words = (frames + 63) / 64;
    }
    if length < words * 8 {
        return None;
    }
    Some(Plan { frames, words, region: l, over_budget: over })
}

/// Frames the bitmap itself occupies.
pub open spec fn map_frames(p: Plan) -> int {
    (p.words * 8 + 4095) / 4096
}

/// Frame `i` holds part of the bitmap.
pub open spec fn in_map(entries: Seq<Entry>, p: Plan, i: int) -> bool {
    let first = entries[p.region as int].base as int / 4096;
    first <= i < first + map_frames(p)
}

proof fn lemma_top(entries: Seq<Entry>, n: int, both: bool, i: int)
    requires
        0 <= i < n <= entries.len(),
        entries[i].kind == MemKind::Usable,
    ensures
        entries[i].end() <= top(entries, n, both),
    decreases n,
{
    if i < n - 1 {
        lemma_top(entries, n - 1, both, i);
    }
}

proof fn lemma_top_bound(entries: Seq<Entry>, n: int, both: bool)
    requires
        n <= entries.len(),
        valid_map(entries),
    ensures
        0 <= top(entries, n, both) <= MAX_PHYS,
    decreases n,
{
    if n > 0 {
        lemma_top_bound(entries, n - 1, both);
        assert(entries[n - 1].end() <= MAX_PHYS);
    }
}

/// Build the bitmap: every usable frame is free, everything else, and the
/// bitmap itself, is in use.
pub fn init(entries: &[Entry], p: &Plan, bits: &mut [u64]) -> (r: Bitmap)
    requires
        valid_map(entries@),
        is_largest(entries@, entries@.len() as int, p.region as int),
        *p == plan_of(entries@, p.region as int),
        p.words * 8 <= entries@[p.region as int].length,
        old(bits)@.len() == p.words,
        old(bits)@.len() * 64 <= usize::MAX,
        usable_frames(entries@, entries@.len() as int) <= usize::MAX,
    ensures
        r.wf(final(bits)@),
        final(bits)@.len() == old(bits)@.len(),
        r.frames == p.frames,
        r.next_hint == 0,
        forall|i: int|
            0 <= i < p.frames ==> #[trigger] bitmap::used(final(bits)@, i) == (!usable(
                entries@,
                entries@.len() as int,
                i,
            ) || in_map(entries@, *p, i)),
        r.total_usable == usable_frames(entries@, entries@.len() as int),
        regions_apart(entries@) ==> r.free == r.total_usable - map_frames(*p),
{
    let ghost n = entries@.len() as int;
    proof {
        lemma_top_bound(entries@, n, true);
        lemma_top_bound(entries@, n, false);
    }
    fill_used(bits);
    let frames: usize = p.frames as usize;
    let mut bm: Bitmap = Bitmap { frames, free: 0, total_usable: 0, next_hint: 0 };
    proof {
        lemma_none_free(bits@, frames as int);
    }
    assert(entries.len() == entries@.len());
    let mut k: usize = 0;
    let mut total: usize = 0;
    while k < entries.len()
        invariant
            k <= entries@.len() == entries.len(),
            n == entries@.len(),
            valid_map(entries@),
            usable_frames(entries@, n) <= usize::MAX,
            total == usable_frames(entries@, k as int),
            regions_apart(entries@) ==> bm.free == total,
            bm.wf(bits@),
            bm.frames == frames,
            bm.next_hint == 0,
            frames == p.frames,
            p.frames == top(entries@, n, !p.over_budget) / 4096,
            bits@.len() == old(bits)@.len(),
            forall|i: int|
                0 <= i < bits@.len() * 64 ==> #[trigger] bitmap::used(bits@, i) == !usable(
                    entries@,
                    k as int,
                    i,
                ),
        decreases entries@.len() - k,
    {
        let e: Entry = entries[k];
        let ghost b1 = bits@;
        if e.kind == MemKind::Usable {
            assert(entries@[k as int].end() <= MAX_PHYS);
            let first: u64 = e.base / FRAME_SIZE;
            let count: u64 = e.length / FRAME_SIZE;
            proof {
                lemma_top(entries@, n, !p.over_budget, k as int);
                assert(first + count <= p.frames);
            }
            let _ = bm.release_used(bits, first as usize, (first + count) as usize);
            proof {
                lemma_usable_frames(entries@, k + 1, n);
                if regions_apart(entries@) {
                    assert forall|j: int| first <= j < first + count implies #[trigger] bitmap::used(b1, j) by {
                        assert(entries@[k as int].covers(j));
                        if usable(entries@, k as int, j) {
                            let a = choose|a: int|
                                0 <= a < k && (#[trigger] entries@[a]).kind == MemKind::Usable
                                    && entries@[a].covers(j);
                            assert(entries@[a].covers(j) && entries@[k as int].covers(j));
                        }
                    }
                }
            }
            total = total + count as usize;
            proof {
                assert forall|i: int| 0 <= i < bits@.len() * 64 implies #[trigger] bitmap::used(bits@, i)
                    == !usable(entries@, k + 1, i) by {
                    assert(bitmap::used(b1, i) == !usable(entries@, k as int, i));
                    lemma_usable_step(entries@, k as int, i);
                }
            }
        } else {
            proof {
                assert forall|i: int| 0 <= i < bits@.len() * 64 implies #[trigger] bitmap::used(bits@, i)
                    == !usable(entries@, k + 1, i) by {
                    lemma_usable_step(entries@, k as int, i);
                }
            }
        }
        k = k + 1;
    }
    bm.total_usable = total;
    let l: Entry = entries[p.region];
    assert(entries@[p.region as int].end() <= MAX_PHYS);
    let bm_first: u64 = l.base / FRAME_SIZE;
    let bm_frames: u64 = (p.words * 8 + 4095) / FRAME_SIZE;
    let ghost b2 = bits@;
    proof {
        lemma_top(entries@, n, !p.over_budget, p.region as int);
        assert forall|j: int| bm_first <= j < bm_first + bm_frames implies !#[trigger] bitmap::used(b2, j) by {
            assert(entries@[p.region as int].covers(j));
            assert(usable(entries@, n, j));
        }
        assert(bitmap::run_at(b2, frames as int, bm_first as int, bm_frames as int));
    }
    bm.claim(bits, bm_first as usize, bm_frames as usize);
    proof {
        assert forall|i: int| 0 <= i < p.frames implies #[trigger] bitmap::used(bits@, i) == (!usable(
            entries@,
            n,
            i,
        ) || in_map(entries@, *p, i)) by {
            assert(bitmap::used(b2, i) == !usable(entries@, n, i));
        }
    }
    bm
}

proof fn lemma_usable_frames(entries: Seq<Entry>, k: int, n: int)
    requires
        k <= n,
    ensures
        usable_frames(entries, k) <= usable_frames(entries, n),
    decreases n - k,
{
    if k < n {
        lemma_usable_frames(entries, k, n - 1);
    }
}

proof fn lemma_usable_step(entries: Seq<Entry>, k: int, i: int)
    requires
        0 <= k < entries.len(),
    ensures
        usable(entries, k + 1, i) == (usable(entries, k, i) || (entries[k].kind == MemKind::Usable
            && entries[k].covers(i))),
{
    if usable(entries, k + 1, i) {
        let e = choose|e: int|
            0 <= e < k + 1 && (#[trigger] entries[e]).kind == MemKind::Usable && entries[e].covers(i);
        if e < k {
            assert(entries[e].kind == MemKind::Usable && entries[e].covers(i));
        }
    }
    if usable(entries, k, i) {
        let e = choose|e: int|
            0 <= e < k && (#[trigger] entries[e]).kind == MemKind::Usable && entries[e].covers(i);
        assert(entries[e].kind == MemKind::Usable && entries[e].covers(i));
    }
    if entries[k].kind == MemKind::Usable && entries[k].covers(i) {
        assert(0 <= k < k + 1);
    }
}

proof fn lemma_none_free(b: Seq<u64>, n: int)
    requires
        forall|i: int| 0 <= i < n ==> #[trigger] bitmap::used(b, i),
    ensures
        bitmap::count_free(b, n) == 0,
    decreases n,
{
    if n > 0 {
        lemma_none_free(b, n - 1);
        assert(bitmap::used(b, n - 1));
    }
}

/// Mark everything in use.
fn fill_used(bits: &mut [u64])
    ensures
        final(bits)@.len() == old(bits)@.len(),
        forall|i: int| 0 <= i < old(bits)@.len() * 64 ==> #[trigger] bitmap::used(final(bits)@, i),
{
    let mut w: usize = 0;
    assert(bits.len() == bits@.len());
    while w < bits.len()
        invariant
            w <= bits@.len() == bits.len(),
            bits@.len() == old(bits)@.len(),
            forall|i: int| 0 <= i < w ==> #[trigger] bits@[i] == u64::MAX,
        decreases bits@.len() - w,
    {
        bits[w] = u64::MAX;
        w = w + 1;
    }
    assert forall|i: int| 0 <= i < bits@.len() * 64 implies #[trigger] bitmap::used(bits@, i) by {
        assert(bits@[i / 64] == u64::MAX);
        bitmap::lemma_full(u64::MAX);
        assert(bitmap::bit(u64::MAX, i % 64));
    }
}

/// The bootloader's regions, copied out of the memory map so the map itself can
/// be freed.
pub struct Reclaim {
    pub regions: [(u64, u64); 16],
    pub n: usize,
    pub done: bool,
}

/// Base and length of the reclaimable regions among the first `n`, in order.
pub open spec fn reclaimable(entries: Seq<Entry>, n: int) -> Seq<(u64, u64)>
    decreases n,
{
    if n <= 0 {
        Seq::empty()
    } else {
        let e = entries[n - 1];
        if e.kind == MemKind::Reclaimable {
            reclaimable(entries, n - 1).push((e.base, e.length))
        } else {
            reclaimable(entries, n - 1)
        }
    }
}

/// Frame `j` lies in one of the first `n` regions.
pub open spec fn in_regions(regions: Seq<(u64, u64)>, n: int, j: int) -> bool {
    exists|i: int|
        0 <= i < n && (#[trigger] regions[i]).0 as int / 4096 <= j < regions[i].0 as int / 4096
            + regions[i].1 as int / 4096
}

impl Reclaim {
    /// The regions that are tracked.
    pub open spec fn known(&self) -> Seq<(u64, u64)> {
        self.regions@.subrange(0, self.n as int)
    }

    pub open spec fn wf(&self) -> bool {
        &&& self.n <= MAX_RECLAIM
        &&& forall|i: int|
            0 <= i < self.n ==> (#[trigger] self.regions@[i]).0 + self.regions@[i].1 <= MAX_PHYS
    }

    /// Remember the first [`MAX_RECLAIM`] reclaimable regions.
    pub fn new(entries: &[Entry]) -> (r: Self)
        requires
            valid_map(entries@),
        ensures
            r.wf(),
            !r.done,
            ({
                let all = reclaimable(entries@, entries@.len() as int);
                r.known() == if all.len() <= MAX_RECLAIM {
                    all
                } else {
                    all.subrange(0, MAX_RECLAIM as int)
                }
            }),
    {
        let mut r: Reclaim = Reclaim { regions: [(0u64, 0u64); 16], n: 0, done: false };
        let mut i: usize = 0;
        assert(entries.len() == entries@.len());
        assert(r.known() =~= Seq::empty());
        while i < entries.len()
            invariant
                i <= entries@.len() == entries.len(),
                valid_map(entries@),
                r.wf(),
                !r.done,
                ({
                    let all = reclaimable(entries@, i as int);
                    r.known() == if all.len() <= MAX_RECLAIM {
                        all
                    } else {
                        all.subrange(0, MAX_RECLAIM as int)
                    }
                }),
            decreases entries@.len() - i,
        {
            let e: Entry = entries[i];
            let ghost t0 = r.known();
            let ghost all = reclaimable(entries@, i as int);
            if e.kind == MemKind::Reclaimable {
                assert(entries@[i as int].end() <= MAX_PHYS);
                if r.n < MAX_RECLAIM {
                    r.regions[r.n] = (e.base, e.length);
                    r.n = r.n + 1;
                    assert(r.known() =~= t0.push((e.base, e.length)));
                } else {
                    assert(all.push((e.base, e.length)).subrange(0, 16) =~= all.subrange(0, 16));
                    assert(all.len() == 16 ==> all.subrange(0, 16) =~= all);
                }
            }
            i = i + 1;
        }
        r
    }

    /// Give the bootloader's memory back to the allocator. Only the first call
    /// does. Returns the number of bytes. The frames start out marked used, and
    /// a region can reach past the last frame of the map, so only used frames
    /// inside the map are released.
    pub fn reclaim_bootloader(&mut self, bm: &mut Bitmap, bits: &mut [u64]) -> (r: u64)
        requires
            old(self).wf(),
            old(bm).wf(old(bits)@),
        ensures
            final(self).wf(),
            final(self).done,
            final(self).known() == old(self).known(),
            final(bm).wf(final(bits)@),
            final(bits)@.len() == old(bits)@.len(),
            final(bm).frames == old(bm).frames,
            final(bm).total_usable == old(bm).total_usable,
            final(bm).next_hint == old(bm).next_hint,
            r == 4096 * (final(bm).free - old(bm).free),
            old(self).done ==> r == 0 && *final(bm) == *old(bm) && final(bits)@ == old(bits)@,
            !old(self).done ==> forall|j: int|
                0 <= j < old(bm).frames ==> #[trigger] bitmap::used(final(bits)@, j) == (bitmap::used(
                    old(bits)@,
                    j,
                ) && !in_regions(old(self).regions@, old(self).n as int, j)),
    {
        if self.done {
            return 0;
        }
        let ghost regs = self.regions@;
        let ghost frames = bm.frames as int;
        let mut freed: usize = 0;
        let mut i: usize = 0;
        while i < self.n
            invariant
                *self == *old(self),
                self.wf(),
                regs == self.regions@,
                i <= self.n,
                bm.wf(bits@),
                bits@.len() == old(bits)@.len(),
                frames == bm.frames,
                bm.frames == old(bm).frames,
                bm.total_usable == old(bm).total_usable,
                bm.next_hint == old(bm).next_hint,
                freed == bm.free - old(bm).free,
                forall|j: int|
                    0 <= j < frames ==> #[trigger] bitmap::used(bits@, j) == (bitmap::used(old(bits)@, j)
                        && !in_regions(regs, i as int, j)),
            decreases self.n - i,
        {
            let (base, length) = self.regions[i];
            assert(regs[i as int].0 + regs[i as int].1 <= MAX_PHYS);
            let first: u64 = base / FRAME_SIZE;
            let end: u64 = first + length / FRAME_SIZE;
            let hi: usize = if end < bm.frames as u64 {
                end as usize
            } else {
                bm.frames
            };
            let lo: usize = if first < bm.frames as u64 {
                first as usize
            } else {
                bm.frames
            };
            let ghost b1 = bits@;
            proof {
                bitmap::lemma_count_bounds(b1, frames);
            }
            let n: usize = bm.release_used(bits, lo, hi);
            proof {
                bitmap::lemma_count_bounds(bits@, frames);
                assert forall|j: int| 0 <= j < frames implies #[trigger] bitmap::used(bits@, j) == (
                bitmap::used(old(bits)@, j) && !in_regions(regs, i + 1, j)) by {
                    assert(bitmap::used(b1, j) == (bitmap::used(old(bits)@, j) && !in_regions(
                        regs,
                        i as int,
                        j,
                    )));
                    lemma_regions_step(regs, i as int, j);
                }
            }
            freed = freed + n;
            i = i + 1;
        }
        self.done = true;
        proof {
            bitmap::lemma_count_bounds(bits@, frames);
        }
        freed as u64 * FRAME_SIZE
    }

    /// Whether the bootloader's memory has been handed back yet.
    pub fn bootloader_reclaimed(&self) -> (r: bool)
        ensures
            r == self.done,
    {
        self.done
    }
}

proof fn lemma_regions_step(regions: Seq<(u64, u64)>, k: int, j: int)
    requires
        0 <= k < regions.len(),
    ensures
        in_regions(regions, k + 1, j) == (in_regions(regions, k, j) || (regions[k].0 as int / 4096 <= j
            < regions[k].0 as int / 4096 + regions[k].1 as int / 4096)),
{
    if in_regions(regions, k + 1, j) {
        let i = choose|i: int|
            0 <= i < k + 1 && (#[trigger] regions[i]).0 as int / 4096 <= j < regions[i].0 as int / 4096
                + regions[i].1 as int / 4096;
        if i < k {
            assert(regions[i].0 as int / 4096 <= j);
        }
    }
    if in_regions(regions, k, j) {
        let i = choose|i: int|
            0 <= i < k && (#[trigger] regions[i]).0 as int / 4096 <= j < regions[i].0 as int / 4096
                + regions[i].1 as int / 4096;
        assert(regions[i].0 as int / 4096 <= j);
    }
    if regions[k].0 as int / 4096 <= j < regions[k].0 as int / 4096 + regions[k].1 as int / 4096 {
        assert(0 <= k < k + 1);
    }
}

/// Memory in use, in KiB.
#[derive(Clone, Copy, Debug, PartialEq, Eq, Structural)]
pub struct Stats {
    pub total_usable_kib: u64,
    pub free_kib: u64,
}

pub fn stats(bm: &Bitmap) -> (r: Stats)
    requires
        bm.total_usable * 4 <= u64::MAX,
        bm.free * 4 <= u64::MAX,
    ensures
        r.total_usable_kib == bm.total_usable * 4,
        r.free_kib == bm.free * 4,
{
    Stats { total_usable_kib: bm.total_usable as u64 * 4, free_kib: bm.free as u64 * 4 }
}

/// The virtual address at which physical memory is seen, with all of it mapped
/// from `hhdm` on.
pub fn phys_to_virt(hhdm: u64, p: u64) -> (r: u64)
    requires
        p + hhdm <= u64::MAX,
    ensures
        r == p + hhdm,
{
    p + hhdm
}

/// Take a frame; returns its physical address.
pub fn alloc_frame(bm: &mut Bitmap, bits: &mut [u64]) -> (r: Option<u64>)
    requires
        old(bm).wf(old(bits)@),
    ensures
        final(bm).wf(final(bits)@),
        final(bm).frames == old(bm).frames,
        final(bm).total_usable == old(bm).total_usable,
        r is None ==> *final(bm) == *old(bm) && final(bits)@ == old(bits)@ && forall|i: int|
            0 <= i < old(bm).frames ==> #[trigger] bitmap::used(old(bits)@, i),
        r matches Some(a) ==> {
            let i = a as int / 4096;
            &&& a == i * 4096
            &&& old(bm).is_next(old(bits)@, i)
            &&& bitmap::marked(old(bits)@, final(bits)@, i, i + 1)
            &&& final(bm).free == old(bm).free - 1
            &&& final(bm).next_hint == i + 1
        },
{
    match bm.take(bits) {
        None => None,
        Some(i) => Some(i as u64 * FRAME_SIZE),
    }
}

/// Take `count` physically contiguous frames; returns the first's address.
pub fn alloc_contiguous_frames(bm: &mut Bitmap, bits: &mut [u64], count: usize) -> (r: Option<u64>)
    requires
        old(bm).wf(old(bits)@),
    ensures
        final(bm).wf(final(bits)@),
        final(bm).frames == old(bm).frames,
        final(bm).total_usable == old(bm).total_usable,
        final(bm).next_hint == old(bm).next_hint,
        r is None ==> *final(bm) == *old(bm) && final(bits)@ == old(bits)@ && (count == 0 || forall|s: int|
            !#[trigger] bitmap::run_at(old(bits)@, old(bm).frames as int, s, count as int)),
        r matches Some(a) ==> {
            let i = a as int / 4096;
            &&& a == i * 4096
            &&& count > 0
            &&& bitmap::run_at(old(bits)@, old(bm).frames as int, i, count as int)
            &&& forall|s: int|
                s < i ==> !#[trigger] bitmap::run_at(old(bits)@, old(bm).frames as int, s, count as int)
            &&& bitmap::marked(old(bits)@, final(bits)@, i, i + count)
            &&& final(bm).free == old(bm).free - count
        },
{
    match bm.alloc_contiguous(bits, count) {
        None => None,
        Some(i) => Some(i as u64 * FRAME_SIZE),
    }
}

/// Give a frame back.
pub fn free_frame(bm: &mut Bitmap, bits: &mut [u64], addr: u64)
    requires
        old(bm).wf(old(bits)@),
        addr / 4096 < old(bm).frames,
        bitmap::used(old(bits)@, addr as int / 4096),
    ensures
        final(bm).wf(final(bits)@),
        final(bm).frames == old(bm).frames,
        final(bm).total_usable == old(bm).total_usable,
        final(bm).free == old(bm).free + 1,
        final(bm).next_hint == if addr / 4096 < old(bm).next_hint {
            addr as int / 4096
        } else {
            old(bm).next_hint as int
        },
        final(bits)@.len() == old(bits)@.len(),
        forall|j: int|
            0 <= j < old(bits)@.len() * 64 ==> #[trigger] bitmap::used(final(bits)@, j) == (j != addr as int
                / 4096 && bitmap::used(old(bits)@, j)),
{
    bm.release(bits, (addr / FRAME_SIZE) as usize);
}

/// A frame that was taken is nobody else's until it is given back: the next one
/// taken is another.
pub proof fn lemma_frames_apart(b0: Seq<u64>, b1: Seq<u64>, i: int, bm: &Bitmap, j: int)
    requires
        bitmap::marked(b0, b1, i, i + 1),
        bm.wf(b1),
        0 <= i < bm.frames,
        bm.is_next(b1, j),
    ensures
        j != i,
{
    assert(bitmap::used(b1, i));
}

proof fn lemma_top_any(entries: Seq<Entry>, n: int, both: bool, i: int)
    requires
        0 <= i < n <= entries.len(),
        entries[i].kind == MemKind::Usable || both && entries[i].kind == MemKind::Reclaimable,
    ensures
        entries[i].end() <= top(entries, n, both),
    decreases n,
{
    if i < n - 1 {
        lemma_top_any(entries, n - 1, both, i);
    }
}

proof fn lemma_top_reached(entries: Seq<Entry>, n: int, both: bool) -> (i: int)
    requires
        0 <= n <= entries.len(),
        top(entries, n, both) > 0,
    ensures
        0 <= i < n,
        entries[i].kind == MemKind::Usable || both && entries[i].kind == MemKind::Reclaimable,
        entries[i].end() == top(entries, n, both),
    decreases n,
{
    let e = entries[n - 1];
    if (e.kind == MemKind::Usable || (both && e.kind == MemKind::Reclaimable)) && e.end() > top(
        entries,
        n - 1,
        both,
    ) {
        n - 1
    } else {
        lemma_top_reached(entries, n - 1, both)
    }
}

/// The map reaches every frame of every region that is usable, and of every one
/// that is the bootloader's unless it is too far up, and ends where the last of
/// them does. It has a bit for each frame, in as few words as that takes, and
/// leaves the bootloader's memory out only if a map with it took more than an
/// eighth of its own region.
pub proof fn lemma_plan_reaches_all(entries: Seq<Entry>, l: int, i: int) -> (last: int)
    requires
        valid_map(entries),
        is_largest(entries, entries.len() as int, l),
        0 <= i < entries.len() <= usize::MAX,
    ensures
        ({
            let p = plan_of(entries, l);
            let counts = |e: Entry| e.kind == MemKind::Usable || e.kind == MemKind::Reclaimable && !p.over_budget;
            &&& counts(entries[i]) ==> entries[i].end() < (p.frames + 1) * 4096
            &&& p.frames > 0 ==> 0 <= last < entries.len() && counts(entries[last]) && p.frames * 4096
                <= entries[last].end()
            &&& p.words * 64 >= p.frames
            &&& p.words == 0 || (p.words - 1) * 64 < p.frames
            &&& p.region == l
            &&& !p.over_budget ==> p.words * 64 <= entries[l].length
        }),
{
    let n = entries.len() as int;
    let p = plan_of(entries, l);
    let both = !p.over_budget;
    lemma_top_bound(entries, n, both);
    if entries[i].kind == MemKind::Usable || both && entries[i].kind == MemKind::Reclaimable {
        lemma_top_any(entries, n, both, i);
    }
    if p.frames > 0 {
        lemma_top_reached(entries, n, both)
    } else {
        0
    }
}

/// A frame belongs to a region if and only if all its bytes do.
pub proof fn lemma_whole_frames(e: Entry, i: int)
    requires
        e.base % 4096 == 0,
    ensures
        e.covers(i) <==> e.base <= i * 4096 && (i + 1) * 4096 <= e.base + e.length,
{
}

/// The map has room in the frames set aside for it, and none of them is left over.
pub proof fn lemma_room_for_map(entries: Seq<Entry>, p: Plan, i: int)
    requires
        0 <= p.region < entries.len(),
        entries[p.region as int].base % 4096 == 0,
    ensures
        ({
            let base = entries[p.region as int].base;
            in_map(entries, p, i) <==> base < (i + 1) * 4096 && i * 4096 < base + p.words * 8
        }),
{
}

/// A usable region more counts its frames, and any other nothing.
pub proof fn lemma_region_counts(entries: Seq<Entry>, e: Entry)
    ensures
        ({
            let n = entries.len() as int;
            let all = entries.push(e);
            &&& usable_frames(Seq::empty(), 0) == 0
            &&& e.kind == MemKind::Usable ==> {
                let more = usable_frames(all, n + 1) - usable_frames(entries, n);
                more * 4096 <= e.length < (more + 1) * 4096
            }
            &&& e.kind != MemKind::Usable ==> usable_frames(all, n + 1) == usable_frames(entries, n)
        }),
{
    let n = entries.len() as int;
    lemma_same_regions(entries, entries.push(e), n);
}

proof fn lemma_same_regions(a: Seq<Entry>, b: Seq<Entry>, n: int)
    requires
        n <= a.len(),
        n <= b.len(),
        forall|i: int| 0 <= i < n ==> #[trigger] a[i] == b[i],
    ensures
        usable_frames(a, n) == usable_frames(b, n),
    decreases n,
{
    if n > 0 {
        assert(a[n - 1] == b[n - 1]);
        lemma_same_regions(a, b, n - 1);
    }
}

/// The bootloader's regions are kept in order, each once and as it was reported.
/// `at` is where each is in the memory map.
pub proof fn lemma_reclaimable(entries: Seq<Entry>, n: int) -> (at: Seq<int>)
    requires
        0 <= n <= entries.len(),
    ensures
        at.len() == reclaimable(entries, n).len(),
        forall|k: int|
            #![trigger at[k]]
            0 <= k < at.len() ==> {
                &&& 0 <= at[k] < n
                &&& entries[at[k]].kind == MemKind::Reclaimable
                &&& reclaimable(entries, n)[k] == (entries[at[k]].base, entries[at[k]].length)
            },
        forall|j: int, k: int| #![trigger at[j], at[k]] 0 <= j < k < at.len() ==> at[j] < at[k],
        forall|i: int|
            0 <= i < n && (#[trigger] entries[i]).kind == MemKind::Reclaimable ==> at.contains(i),
    decreases n,
{
    if n <= 0 {
        Seq::empty()
    } else {
        let less = lemma_reclaimable(entries, n - 1);
        if entries[n - 1].kind == MemKind::Reclaimable {
            let at = less.push(n - 1);
            assert forall|i: int| 0 <= i < n && (#[trigger] entries[i]).kind == MemKind::Reclaimable implies at.contains(
                i,
            ) by {
                if i < n - 1 {
                    let m = choose|m: int| 0 <= m < less.len() && less[m] == i;
                    assert(at[m] == i);
                } else {
                    assert(at[less.len() as int] == i);
                }
            }
            at
        } else {
            less
        }
    }
}

} // verus!
