//! An independent reading of a heap's block list. The heap must stay a clean
//! partition: every block a multiple of 16 bytes long, links consistent, the
//! blocks covering the whole range, no two allocated blocks overlapping, and
//! every live pointer inside an allocated block with the header clear of it.
use vstd::prelude::*;

use crate::rt::blocks;
use crate::rt::blocks::{Block, HEADER, MIN_SPLIT};
use crate::rt::heap::{HeapStats, K1kHeap};

verus! {

/// The most blocks a list may have.
pub const MAX_STEPS: u64 = 1_000_000;

/// A pointer the heap handed out, and how many bytes of it are in use.
#[derive(Clone, Copy, Debug, PartialEq, Eq, Structural)]
pub struct Live {
    pub ptr: u64,
    pub valid: u64,
}

/// What is wrong with a heap. Places are addresses.
#[derive(Clone, Copy, Debug, PartialEq, Eq, Structural)]
pub enum Fault {
    /// Live pointers in a heap the allocator never touched.
    LiveInFresh,
    HeaderOutside(u64),
    /// The size of a block is no multiple of 16.
    OddSize(u64),
    TooSmall(u64),
    /// A block does not point back to the one before it.
    BadBack(u64),
    Endless,
    /// The blocks do not cover the heap.
    NotCovered,
    /// The bytes in use are not those of the allocated blocks.
    WrongInUse,
    /// The number of live allocations is not that of the allocated blocks.
    WrongLive,
    Overlap(u64),
    /// A live pointer is in no allocated block.
    Stray(u64),
    /// A live pointer is inside a block's header.
    InHeader(u64),
    /// A live allocation runs past its block.
    PastEnd(u64),
}

/// The block list from `p` on, with `prev` the block before: at most `fuel`
/// blocks.
pub open spec fn walked(mem: Seq<u8>, base: int, p: int, prev: int, fuel: nat) -> Result<Seq<Block>, Fault>
    decreases fuel,
{
    let flags = blocks::word(mem, base, p);
    let size = flags - flags % 2;
    if p == 0 {
        Ok(Seq::empty())
    } else if p < base || p + HEADER > base + mem.len() {
        Err(Fault::HeaderOutside(p as u64))
    } else if size % 16 != 0 {
        Err(Fault::OddSize(p as u64))
    } else if size < MIN_SPLIT {
        Err(Fault::TooSmall(p as u64))
    } else if blocks::word(mem, base, p + 16) != prev {
        Err(Fault::BadBack(p as u64))
    } else if fuel == 0 {
        Err(Fault::Endless)
    } else {
        match walked(mem, base, blocks::word(mem, base, p + 8), p, (fuel - 1) as nat) {
            Ok(rest) => Ok(seq![Block { addr: p, size, free: flags % 2 == 1 }] + rest),
            Err(e) => Err(e),
        }
    }
}

/// The bytes that blocks cover.
pub open spec fn covered(list: Seq<Block>) -> int
    decreases list.len(),
{
    if list.len() == 0 {
        0
    } else {
        covered(list.drop_last()) + list.last().size
    }
}

/// The allocated blocks of a list.
pub open spec fn allocated(list: Seq<Block>) -> Seq<Block>
    decreases list.len(),
{
    if list.len() == 0 {
        Seq::empty()
    } else if list.last().free {
        allocated(list.drop_last())
    } else {
        allocated(list.drop_last()).push(list.last())
    }
}

/// The first block from `i` on that runs into the one after it.
pub open spec fn overlap(used: Seq<Block>, i: int) -> Option<Fault>
    decreases used.len() - i,
{
    if i + 1 >= used.len() {
        None
    } else if used[i].end() > used[i + 1].addr {
        Some(Fault::Overlap(used[i].addr as u64))
    } else {
        overlap(used, i + 1)
    }
}

/// The first block from `i` on that an address is in, or the length.
pub open spec fn block_of(used: Seq<Block>, a: int, i: int) -> int
    decreases used.len() - i,
{
    if i >= used.len() {
        used.len() as int
    } else if used[i].addr <= a < used[i].end() {
        i
    } else {
        block_of(used, a, i + 1)
    }
}

/// What is wrong with a live pointer.
pub open spec fn live_fault(used: Seq<Block>, l: Live) -> Option<Fault> {
    let k = block_of(used, l.ptr as int, 0);
    if k >= used.len() {
        Some(Fault::Stray(l.ptr))
    } else if l.ptr - used[k].addr < HEADER {
        Some(Fault::InHeader(l.ptr))
    } else if l.ptr + l.valid > used[k].end() {
        Some(Fault::PastEnd(l.ptr))
    } else {
        None
    }
}

/// What is wrong with the live pointers from number `i` on.
pub open spec fn live_faults(used: Seq<Block>, live: Seq<Live>, i: int) -> Option<Fault>
    decreases live.len() - i,
{
    if i >= live.len() {
        None
    } else {
        match live_fault(used, live[i]) {
            Some(f) => Some(f),
            None => live_faults(used, live, i + 1),
        }
    }
}

/// Whether the allocator never touched a heap.
pub open spec fn untouched(mem: Seq<u8>, base: int) -> bool {
    blocks::word(mem, base, base) == 0 && blocks::word(mem, base, base + 8) == 0 && blocks::word(
        mem,
        base,
        base + 16,
    ) == 0
}

/// What is wrong with a heap, if anything.
pub open spec fn audited(mem: Seq<u8>, base: int, stats: HeapStats, live: Seq<Live>) -> Option<Fault> {
    if untouched(mem, base) {
        if live.len() == 0 {
            None
        } else {
            Some(Fault::LiveInFresh)
        }
    } else {
        match walked(mem, base, base, 0, MAX_STEPS as nat) {
            Err(e) => Some(e),
            Ok(list) => {
                let used = allocated(list);
                if covered(list) != mem.len() {
                    Some(Fault::NotCovered)
                } else if stats.in_use != covered(used) {
                    Some(Fault::WrongInUse)
                } else if stats.live != used.len() {
                    Some(Fault::WrongLive)
                } else {
                    match overlap(used, 0) {
                        Some(f) => Some(f),
                        None => live_faults(used, live, 0),
                    }
                }
            },
        }
    }
}

/// A block as the walk finds it.
#[derive(Clone, Copy, Debug, PartialEq, Eq, Structural)]
pub struct Found {
    pub addr: u64,
    pub size: u64,
    pub free: bool,
}

pub open spec fn as_blocks(v: Seq<Found>) -> Seq<Block> {
    Seq::new(v.len(), |i: int| Block { addr: v[i].addr as int, size: v[i].size as int, free: v[i].free })
}

fn walk(mem: &[u8], base: u64) -> (r: Result<Vec<Found>, Fault>)
    requires
        base > 0,
        base + mem@.len() <= u64::MAX,
    ensures
        match walked(mem@, base as int, base as int, 0, MAX_STEPS as nat) {
            Ok(list) => r matches Ok(v) && as_blocks(v@) == list && v@.len() <= MAX_STEPS,
            Err(e) => r matches Err(f) && f == e,
        },
{
    assert(mem.len() == mem@.len());
    let end: u64 = base + mem.len() as u64;
    let ghost all = walked(mem@, base as int, base as int, 0, MAX_STEPS as nat);
    let mut out: Vec<Found> = Vec::new();
    let mut p: u64 = base;
    let mut prev: u64 = 0;
    assert(as_blocks(out@) =~= Seq::empty());
    proof {
        if let Ok(list) = all {
            assert(list =~= as_blocks(out@) + list);
        }
    }
    while p != 0
        invariant
            mem.len() == mem@.len(),
            base > 0,
            end == base + mem@.len(),
            out@.len() <= MAX_STEPS,
            all == match walked(
                mem@,
                base as int,
                p as int,
                prev as int,
                (MAX_STEPS - out@.len()) as nat,
            ) {
                Ok(rest) => Ok::<Seq<Block>, Fault>(as_blocks(out@) + rest),
                Err(e) => Err(e),
            },
            all == walked(mem@, base as int, base as int, 0, MAX_STEPS as nat),
        decreases MAX_STEPS - out@.len() + (if p != 0 {
            1int
        } else {
            0
        }),
    {
        if p < base || p > end || end - p < HEADER {
            return Err(Fault::HeaderOutside(p));
        }
        let flags: u64 = blocks::get_word(mem, base, p);
        let size: u64 = flags - flags % 2;
        if size % 16 != 0 {
            return Err(Fault::OddSize(p));
        }
        if size < MIN_SPLIT {
            return Err(Fault::TooSmall(p));
        }
        if blocks::get_word(mem, base, p + 16) != prev {
            return Err(Fault::BadBack(p));
        }
        if out.len() >= MAX_STEPS as usize {
            return Err(Fault::Endless);
        }
        let next: u64 = blocks::get_word(mem, base, p + 8);
        let b: Found = Found { addr: p, size, free: flags % 2 == 1 };
        let ghost before = out@;
        out.push(b);
        proof {
            let bb = Block { addr: p as int, size: size as int, free: b.free };
            assert(as_blocks(out@) =~= as_blocks(before).push(bb));
            if let Ok(rest) = walked(
                mem@,
                base as int,
                next as int,
                p as int,
                (MAX_STEPS - out@.len()) as nat,
            ) {
                assert(as_blocks(before) + (seq![bb] + rest) =~= as_blocks(out@) + rest);
            }
        }
        prev = p;
        p = next;
    }
    proof {
        assert(as_blocks(out@) + Seq::<Block>::empty() =~= as_blocks(out@));
    }
    Ok(out)
}

/// The allocated blocks among those found.
fn pick_allocated(v: &Vec<Found>) -> (r: Vec<Found>)
    ensures
        as_blocks(r@) == allocated(as_blocks(v@)),
        r@.len() <= v@.len(),
{
    let mut out: Vec<Found> = Vec::new();
    let ghost all = as_blocks(v@);
    let mut i: usize = 0;
    assert(all.take(0) =~= Seq::empty());
    assert(as_blocks(out@) =~= Seq::empty());
    while i < v.len()
        invariant
            i <= v@.len(),
            all == as_blocks(v@),
            as_blocks(out@) == allocated(all.take(i as int)),
            out@.len() <= i,
        decreases v@.len() - i,
    {
        let ghost before = out@;
        let b: Found = v[i];
        assert(all.take(i + 1).drop_last() =~= all.take(i as int));
        assert(all.take(i + 1).last() == all[i as int]);
        if !b.free {
            out.push(b);
            assert(as_blocks(out@) =~= as_blocks(before).push(all[i as int]));
        }
        i = i + 1;
    }
    assert(all.take(i as int) =~= all);
    out
}

/// The bytes blocks cover.
fn sum_sizes(v: &Vec<Found>) -> (r: u128)
    requires
        v@.len() <= MAX_STEPS,
    ensures
        r == covered(as_blocks(v@)),
{
    let ghost all = as_blocks(v@);
    let mut sum: u128 = 0;
    let mut i: usize = 0;
    assert(all.take(0) =~= Seq::empty());
    while i < v.len()
        invariant
            i <= v@.len() <= MAX_STEPS,
            all == as_blocks(v@),
            sum == covered(all.take(i as int)),
            sum <= i * 0x1_0000_0000_0000_0000,
        decreases v@.len() - i,
    {
        assert(all.take(i + 1).drop_last() =~= all.take(i as int));
        assert(all.take(i + 1).last() == all[i as int]);
        sum = sum + v[i].size as u128;
        i = i + 1;
    }
    assert(all.take(i as int) =~= all);
    sum
}

fn find_overlap(used: &Vec<Found>) -> (r: Option<Fault>)
    ensures
        r == overlap(as_blocks(used@), 0),
{
    let ghost all = as_blocks(used@);
    let n: usize = used.len();
    let mut i: usize = 0;
    while i < n && n - i > 1
        invariant
            i <= n,
            n == used@.len(),
            all == as_blocks(used@),
            overlap(all, 0) == overlap(all, i as int),
        decreases n - i,
    {
        let a: Found = used[i];
        let b: Found = used[i + 1];
        if a.addr as u128 + a.size as u128 > b.addr as u128 {
            return Some(Fault::Overlap(a.addr));
        }
        i = i + 1;
    }
    None
}

fn check_live(used: &Vec<Found>, l: Live) -> (r: Option<Fault>)
    ensures
        r == live_fault(as_blocks(used@), l),
{
    let ghost all = as_blocks(used@);
    let a: u128 = l.ptr as u128;
    let mut i: usize = 0;
    while i < used.len()
        invariant
            i <= used@.len(),
            all == as_blocks(used@),
            a == l.ptr,
            block_of(all, l.ptr as int, 0) == block_of(all, l.ptr as int, i as int),
        decreases used@.len() - i,
    {
        let b: Found = used[i];
        let end: u128 = b.addr as u128 + b.size as u128;
        if b.addr as u128 <= a && a < end {
            if l.ptr - b.addr < HEADER {
                return Some(Fault::InHeader(l.ptr));
            }
            if a + l.valid as u128 > end {
                return Some(Fault::PastEnd(l.ptr));
            }
            return None;
        }
        i = i + 1;
    }
    Some(Fault::Stray(l.ptr))
}

/// Check a heap against its counters and the pointers it handed out.
pub fn audit(mem: &[u8], base: u64, stats: HeapStats, live: &[Live]) -> (r: Result<(), Fault>)
    requires
        mem@.len() >= HEADER,
        base > 0,
        base + mem@.len() <= u64::MAX,
    ensures
        match audited(mem@, base as int, stats, live@) {
            None => r is Ok,
            Some(f) => r matches Err(e) && e == f,
        },
{
    assert(mem.len() == mem@.len());
    if blocks::get_word(mem, base, base) == 0 && blocks::get_word(mem, base, base + 8) == 0
        && blocks::get_word(mem, base, base + 16) == 0 {
        return if live.len() == 0 {
            Ok(())
        } else {
            Err(Fault::LiveInFresh)
        };
    }
    let list: Vec<Found> = match walk(mem, base) {
        Ok(v) => v,
        Err(f) => {
            return Err(f);
        },
    };
    let used: Vec<Found> = pick_allocated(&list);
    if sum_sizes(&list) != mem.len() as u128 {
        return Err(Fault::NotCovered);
    }
    if stats.in_use as u128 != sum_sizes(&used) {
        return Err(Fault::WrongInUse);
    }
    if stats.live != used.len() as u64 {
        return Err(Fault::WrongLive);
    }
    match find_overlap(&used) {
        Some(f) => {
            return Err(f);
        },
        None => {},
    }
    let ghost ub = as_blocks(used@);
    let mut i: usize = 0;
    while i < live.len()
        invariant
            i <= live@.len(),
            ub == as_blocks(used@),
            live_faults(ub, live@, 0) == live_faults(ub, live@, i as int),
            audited(mem@, base as int, stats, live@) == live_faults(ub, live@, 0),
        decreases live@.len() - i,
    {
        match check_live(&used, live[i]) {
            Some(f) => {
                return Err(f);
            },
            None => {},
        }
        i = i + 1;
    }
    Ok(())
}

/// The walk finds the blocks of a well-formed list.
proof fn lemma_walk(mem: Seq<u8>, base: int, b: Seq<Block>, i: int, fuel: nat)
    requires
        blocks::list_ok(mem, base, b),
        forall|k: int| 0 <= k < b.len() ==> #[trigger] b[k].size % 16 == 0,
        0 <= i <= b.len(),
        fuel >= b.len() - i,
    ensures
        walked(mem, base, if i < b.len() {
            b[i].addr
        } else {
            0
        }, if i > 0 {
            b[i - 1].addr
        } else {
            0
        }, fuel) == Ok::<Seq<Block>, Fault>(b.subrange(i, b.len() as int)),
    decreases b.len() - i,
{
    if i < b.len() {
        blocks::lemma_tile(base, mem.len() as int, b, i);
        assert(blocks::header_ok(mem, base, b, i));
        lemma_walk(mem, base, b, i + 1, (fuel - 1) as nat);
        assert(b[i].size % 16 == 0);
        let flags = b[i].size_flags();
        assert(flags - flags % 2 == b[i].size);
        assert(seq![b[i]] + b.subrange(i + 1, b.len() as int) =~= b.subrange(i, b.len() as int));
        assert(Block { addr: b[i].addr, size: b[i].size, free: flags % 2 == 1 } == b[i]);
    } else {
        assert(b.subrange(i, b.len() as int) =~= Seq::empty());
    }
}

/// Blocks that follow each other cover the range from the first to the last.
proof fn lemma_covered(base: int, b: Seq<Block>, n: int)
    requires
        0 < n <= b.len(),
        forall|i: int, j: int|
            #![trigger b[i], b[j]]
            0 <= i < b.len() && j == i + 1 && j < b.len() ==> b[i].end() == b[j].addr,
        b[0].addr == base,
    ensures
        covered(b.take(n)) == b[n - 1].end() - base,
    decreases n,
{
    let t = b.take(n);
    assert(t.drop_last() =~= b.take(n - 1));
    if n > 1 {
        lemma_covered(base, b, n - 1);
        assert(b[n - 2].end() == b[n - 1].addr);
    } else {
        assert(t.drop_last() =~= Seq::<Block>::empty());
        assert(covered(t.drop_last()) == 0);
    }
    assert(t.last() == b[n - 1]);
}

/// The allocated blocks carry the totals.
proof fn lemma_allocated_totals(b: Seq<Block>)
    ensures
        covered(allocated(b)) == blocks::used_bytes(b),
        allocated(b).len() == blocks::used_count(b),
    decreases b.len(),
{
    if b.len() > 0 {
        lemma_allocated_totals(b.drop_last());
        let a = allocated(b.drop_last());
        if !b.last().free {
            assert(a.push(b.last()).drop_last() =~= a);
        }
    }
}

/// Allocated blocks keep their order, and each is a block of the list.
proof fn lemma_allocated_order(b: Seq<Block>)
    requires
        forall|i: int, j: int|
            #![trigger b[i], b[j]]
            0 <= i < j < b.len() ==> b[i].end() <= b[j].addr,
    ensures
        forall|i: int|
            0 <= i < allocated(b).len() ==> exists|k: int|
                0 <= k < b.len() && b[k] == #[trigger] allocated(b)[i] && !b[k].free,
        forall|i: int, j: int|
            #![trigger allocated(b)[i], allocated(b)[j]]
            0 <= i < j < allocated(b).len() ==> allocated(b)[i].end() <= allocated(b)[j].addr,
    decreases b.len(),
{
    if b.len() > 0 {
        let c = b.drop_last();
        assert forall|i: int, j: int|
            #![trigger c[i], c[j]]
            0 <= i < j < c.len() implies c[i].end() <= c[j].addr by {
            assert(b[i].end() <= b[j].addr);
        }
        lemma_allocated_order(c);
        let a = allocated(c);
        let d = allocated(b);
        let last = b.len() - 1;
        assert forall|i: int| 0 <= i < d.len() implies exists|k: int|
            0 <= k < b.len() && b[k] == #[trigger] d[i] && !b[k].free by {
            if i < a.len() {
                let k = choose|k: int| 0 <= k < c.len() && c[k] == a[i] && !c[k].free;
                assert(b[k] == d[i] && !b[k].free);
            } else {
                assert(b[last] == d[i] && !b[last].free);
            }
        }
        assert forall|i: int, j: int|
            #![trigger d[i], d[j]]
            0 <= i < j < d.len() implies d[i].end() <= d[j].addr by {
            if j < a.len() {
                assert(a[i].end() <= a[j].addr);
            } else {
                let k = choose|k: int| 0 <= k < c.len() && c[k] == a[i] && !c[k].free;
                assert(b[k].end() <= b[last].addr);
            }
        }
    }
}

/// Every allocated block of a list is among the allocated ones.
proof fn lemma_allocated_has(b: Seq<Block>, k: int) -> (i: int)
    requires
        0 <= k < b.len(),
        !b[k].free,
    ensures
        0 <= i < allocated(b).len(),
        allocated(b)[i] == b[k],
    decreases b.len(),
{
    if k == b.len() - 1 {
        allocated(b.drop_last()).len() as int
    } else {
        assert(b.drop_last()[k] == b[k]);
        lemma_allocated_has(b.drop_last(), k)
    }
}

proof fn lemma_no_overlap(used: Seq<Block>, i: int)
    requires
        0 <= i,
        forall|x: int, y: int|
            #![trigger used[x], used[y]]
            0 <= x < y < used.len() ==> used[x].end() <= used[y].addr,
    ensures
        overlap(used, i) is None,
    decreases used.len() - i,
{
    if i + 1 < used.len() {
        assert(used[i].end() <= used[i + 1].addr);
        lemma_no_overlap(used, i + 1);
    }
}

proof fn lemma_block_found(used: Seq<Block>, a: int, i: int, k: int)
    requires
        0 <= i <= k < used.len(),
        used[k].addr <= a < used[k].end(),
        forall|x: int, y: int|
            #![trigger used[x], used[y]]
            0 <= x < y < used.len() ==> used[x].end() <= used[y].addr,
    ensures
        block_of(used, a, i) == k,
    decreases k - i,
{
    if i < k {
        assert(used[i].end() <= used[k].addr);
        lemma_block_found(used, a, i + 1, k);
    }
}

proof fn lemma_live_ok(used: Seq<Block>, live: Seq<Live>, i: int)
    requires
        0 <= i <= live.len(),
        forall|k: int| 0 <= k < live.len() ==> live_fault(used, #[trigger] live[k]) is None,
    ensures
        live_faults(used, live, i) is None,
    decreases live.len() - i,
{
    if i < live.len() {
        assert(live_fault(used, live[i]) is None);
        lemma_live_ok(used, live, i + 1);
    }
}

/// Block `k` is the home of a live pointer that uses no more than its block.
pub open spec fn at_home(h: &K1kHeap, l: Live, k: int) -> bool {
    &&& 0 <= k < h.blocks@.len()
    &&& !h.blocks@[k].free
    &&& h.blocks@[k].addr + HEADER <= l.ptr < h.blocks@[k].end()
    &&& l.ptr + l.valid <= h.blocks@[k].end()
}

/// Some allocated block is the home of a live pointer.
pub open spec fn housed(h: &K1kHeap, l: Live) -> bool {
    exists|k: int| #[trigger] at_home(h, l, k)
}

/// Whatever the allocator has done, an audit finds nothing wrong: in every state
/// it can reach, with every live pointer used within its block.
pub proof fn lemma_audit_passes(h: &K1kHeap, mem: Seq<u8>, stats: HeapStats, live: Seq<Live>)
    requires
        h.wf(mem),
        h.head != 0,
        mem.len() % 16 == 0,
        mem.len() < MAX_STEPS * MIN_SPLIT,
        stats.in_use == h.in_use,
        stats.live == h.live,
        forall|i: int| 0 <= i < live.len() ==> housed(h, #[trigger] live[i]),
    ensures
        audited(mem, h.head as int, stats, live) is None,
{
    let b = h.blocks@;
    let base = h.head as int;
    assert forall|k: int| 0 <= k < b.len() implies #[trigger] b[k].size % 16 == 0 by {
        crate::rt::heap::lemma_block_sizes(h, mem, k);
    }
    lemma_list(mem, base, b);
    lemma_allocated_totals(b);
    lemma_lives(h, live);
}

/// A well-formed list is walked to its end, covers the heap, and its allocated
/// blocks are apart.
proof fn lemma_list(mem: Seq<u8>, base: int, b: Seq<Block>)
    requires
        blocks::list_ok(mem, base, b),
        forall|k: int| 0 <= k < b.len() ==> #[trigger] b[k].size % 16 == 0,
        mem.len() % 16 == 0,
        mem.len() < MAX_STEPS * MIN_SPLIT,
    ensures
        !untouched(mem, base),
        walked(mem, base, base, 0, MAX_STEPS as nat) == Ok::<Seq<Block>, Fault>(b),
        covered(b) == mem.len(),
        overlap(allocated(b), 0) is None,
        forall|i: int, j: int|
            #![trigger b[i], b[j]]
            0 <= i < j < b.len() ==> b[i].end() <= b[j].addr,
{
    reveal(blocks::tiles);
    lemma_count_blocks(base, b, b.len() as int);
    lemma_walk(mem, base, b, 0, MAX_STEPS as nat);
    assert(b.subrange(0, b.len() as int) =~= b);
    assert(b.take(b.len() as int) =~= b);
    lemma_covered(base, b, b.len() as int);
    lemma_allocated_order(b);
    lemma_no_overlap(allocated(b), 0);
    assert(blocks::header_ok(mem, base, b, 0));
    assert(b[0].size >= MIN_SPLIT);
}

/// Live pointers at home in their blocks are in order.
proof fn lemma_lives(h: &K1kHeap, live: Seq<Live>)
    requires
        forall|i: int, j: int|
            #![trigger h.blocks@[i], h.blocks@[j]]
            0 <= i < j < h.blocks@.len() ==> h.blocks@[i].end() <= h.blocks@[j].addr,
        forall|i: int| 0 <= i < live.len() ==> housed(h, #[trigger] live[i]),
    ensures
        live_faults(allocated(h.blocks@), live, 0) is None,
{
    let b = h.blocks@;
    let used = allocated(b);
    lemma_allocated_order(b);
    assert forall|i: int| 0 <= i < live.len() implies live_fault(used, #[trigger] live[i]) is None by {
        assert(housed(h, live[i]));
        let k = choose|k: int| #[trigger] at_home(h, live[i], k);
        let j = lemma_allocated_has(b, k);
        lemma_block_found(used, live[i].ptr as int, 0, j);
    }
    lemma_live_ok(used, live, 0);
}

/// Every block takes its least size from the range.
proof fn lemma_count_blocks(base: int, b: Seq<Block>, n: int)
    requires
        0 < n <= b.len(),
        b[0].addr == base,
        forall|i: int| 0 <= i < b.len() ==> #[trigger] b[i].size >= MIN_SPLIT,
        forall|i: int, j: int|
            #![trigger b[i], b[j]]
            0 <= i < b.len() && j == i + 1 && j < b.len() ==> b[i].end() == b[j].addr,
    ensures
        48 * n <= b[n - 1].end() - base,
    decreases n,
{
    assert(b[n - 1].size >= MIN_SPLIT);
    if n > 1 {
        lemma_count_blocks(base, b, n - 1);
        assert(b[n - 2].end() == b[n - 1].addr);
    }
}

/// The walk follows the links in memory: every block starts where the one before
/// points, points back to it, and is as long as its header says.
proof fn lemma_walked(mem: Seq<u8>, base: int, p: int, prev: int, fuel: nat, k: int)
    requires
        walked(mem, base, p, prev, fuel) is Ok,
        0 <= k < walked(mem, base, p, prev, fuel)->Ok_0.len(),
    ensures
        ({
            let b = walked(mem, base, p, prev, fuel)->Ok_0;
            let w = blocks::word(mem, base, b[k].addr);
            &&& b[0].addr == p
            &&& b[k].addr != 0
            &&& base <= b[k].addr && b[k].addr + 32 <= base + mem.len()
            &&& b[k].size == w - w % 2 && b[k].size % 16 == 0 && b[k].size >= 48
            &&& b[k].free <==> w % 2 == 1
            &&& blocks::word(mem, base, b[k].addr + 16) == if k == 0 {
                prev
            } else {
                b[k - 1].addr
            }
            &&& blocks::word(mem, base, b[k].addr + 8) == if k + 1 == b.len() {
                0
            } else {
                b[k + 1].addr
            }
        }),
    decreases fuel,
{
    let b = walked(mem, base, p, prev, fuel)->Ok_0;
    let next = blocks::word(mem, base, p + 8);
    let rest = walked(mem, base, next, p, (fuel - 1) as nat)->Ok_0;
    assert(b.len() == 1 + rest.len());
    assert(forall|i: int| 0 <= i < rest.len() ==> b[i + 1] == #[trigger] rest[i]);
    if rest.len() > 0 {
        lemma_walked(mem, base, next, p, (fuel - 1) as nat, if k > 0 {
            k - 1
        } else {
            0
        });
        assert(b[1] == rest[0]);
        if k > 0 {
            assert(b[k] == rest[k - 1]);
            if k > 1 {
                assert(b[k - 1] == rest[k - 2]);
            }
            if k + 1 < b.len() {
                assert(b[k + 1] == rest[k]);
            }
        }
    }
}

/// Allocated blocks of which none runs into the one after it are all apart.
proof fn lemma_apart(used: Seq<Block>, i: int, x: int, y: int)
    requires
        0 <= i <= x < y < used.len(),
        overlap(used, i) is None,
        forall|k: int| 0 <= k < used.len() ==> (#[trigger] used[k]).size > 0,
    ensures
        used[x].end() <= used[y].addr,
    decreases y - i,
{
    if i < x {
        lemma_apart(used, i + 1, x, y);
    } else if x + 1 < y {
        lemma_apart(used, i + 1, x + 1, y);
        assert(used[x + 1].size > 0);
    }
}

/// Where two allocated blocks of a list stand among the allocated ones.
proof fn lemma_allocated_two(b: Seq<Block>, x: int, y: int) -> (r: (int, int))
    requires
        0 <= x < y < b.len(),
        !b[x].free,
        !b[y].free,
    ensures
        0 <= r.0 < r.1 < allocated(b).len(),
        allocated(b)[r.0] == b[x],
        allocated(b)[r.1] == b[y],
    decreases b.len(),
{
    let d = b.drop_last();
    assert(d[x] == b[x]);
    if y == b.len() - 1 {
        (lemma_allocated_has(d, x), allocated(d).len() as int)
    } else {
        assert(d[y] == b[y]);
        lemma_allocated_two(d, x, y)
    }
}

/// Every allocated block is one of the list.
proof fn lemma_allocated_from(b: Seq<Block>, i: int) -> (k: int)
    requires
        0 <= i < allocated(b).len(),
    ensures
        0 <= k < b.len(),
        b[k] == allocated(b)[i],
        !b[k].free,
    decreases b.len(),
{
    if !b.last().free && i == allocated(b).len() - 1 {
        b.len() - 1
    } else {
        let k = lemma_allocated_from(b.drop_last(), i);
        assert(b.drop_last()[k] == b[k]);
        k
    }
}

proof fn lemma_block_of(used: Seq<Block>, a: int, i: int)
    requires
        0 <= i <= used.len(),
    ensures
        i <= block_of(used, a, i) <= used.len(),
        block_of(used, a, i) < used.len() ==> used[block_of(used, a, i)].addr <= a < used[block_of(
            used,
            a,
            i,
        )].end(),
    decreases used.len() - i,
{
    if i < used.len() {
        lemma_block_of(used, a, i + 1);
    }
}

proof fn lemma_no_live_fault(used: Seq<Block>, live: Seq<Live>, i: int, l: int)
    requires
        0 <= i <= l < live.len(),
        live_faults(used, live, i) is None,
    ensures
        live_fault(used, live[l]) is None,
    decreases live.len() - i,
{
    if i < l {
        lemma_no_live_fault(used, live, i + 1, l);
    }
}

/// What a heap that passes is like. Its headers form a chain from its first byte
/// on, linked both ways; if every block ends where the next starts they fill it.
/// The counters are those of the allocated blocks, no two of these share a byte,
/// and every live pointer lies in one of them, behind the header, with all that
/// it is used for.
pub proof fn lemma_audit_means(
    mem: Seq<u8>,
    base: int,
    stats: HeapStats,
    live: Seq<Live>,
    i: int,
    x: int,
    y: int,
    l: int,
) -> (r: (Seq<Block>, int))
    requires
        base > 0,
        audited(mem, base, stats, live) is None,
        blocks::word(mem, base, base) != 0,
    ensures
        ({
            let b = r.0;
            let w = blocks::word(mem, base, b[i].addr);
            &&& b.len() > 0 && b[0].addr == base
            &&& stats.in_use == blocks::used_bytes(b)
            &&& stats.live == blocks::used_count(b)
            &&& 0 <= i < b.len() ==> {
                &&& base <= b[i].addr && b[i].addr + 32 <= base + mem.len()
                &&& b[i].size == w - w % 2 && b[i].size % 16 == 0 && b[i].size >= 48
                &&& b[i].free <==> w % 2 == 1
                &&& blocks::word(mem, base, b[i].addr + 16) == if i == 0 {
                    0
                } else {
                    b[i - 1].addr
                }
                &&& blocks::word(mem, base, b[i].addr + 8) == if i + 1 == b.len() {
                    0
                } else {
                    b[i + 1].addr
                }
            }
            &&& 0 <= x < y < b.len() && !b[x].free && !b[y].free ==> b[x].addr + b[x].size <= b[y].addr
            &&& (forall|p: int, q: int|
                #![trigger b[p], b[q]]
                0 <= p < b.len() && q == p + 1 && q < b.len() ==> b[p].addr + b[p].size == b[q].addr)
                ==> b.last().addr + b.last().size == base + mem.len()
            &&& 0 <= l < live.len() ==> {
                &&& 0 <= r.1 < b.len() && !b[r.1].free
                &&& b[r.1].addr + 32 <= live[l].ptr
                &&& live[l].ptr + live[l].valid <= b[r.1].addr + b[r.1].size
            }
        }),
{
    let b = walked(mem, base, base, 0, MAX_STEPS as nat)->Ok_0;
    let used = allocated(b);
    assert(b.len() > 0);
    lemma_walked(mem, base, base, 0, MAX_STEPS as nat, 0);
    if 0 <= i < b.len() {
        lemma_walked(mem, base, base, 0, MAX_STEPS as nat, i);
    }
    lemma_allocated_totals(b);
    if 0 <= x < y < b.len() && !b[x].free && !b[y].free {
        let at = lemma_allocated_two(b, x, y);
        assert forall|k: int| 0 <= k < used.len() implies (#[trigger] used[k]).size > 0 by {
            let f = lemma_allocated_from(b, k);
            lemma_walked(mem, base, base, 0, MAX_STEPS as nat, f);
        }
        lemma_apart(used, 0, at.0, at.1);
    }
    if forall|p: int, q: int|
        #![trigger b[p], b[q]]
        0 <= p < b.len() && q == p + 1 && q < b.len() ==> b[p].addr + b[p].size == b[q].addr {
        assert(b.take(b.len() as int) =~= b);
        lemma_covered(base, b, b.len() as int);
    }
    let mut at: int = 0;
    if 0 <= l < live.len() {
        lemma_no_live_fault(used, live, 0, l);
        let k = block_of(used, live[l].ptr as int, 0);
        lemma_block_of(used, live[l].ptr as int, 0);
        at = lemma_allocated_from(b, k);
    }
    (b, at)
}

} // verus!
