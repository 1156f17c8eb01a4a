//! The per-service heap.
//!
//! The supervisor maps a private heap range into every ring-3 task and writes
//! its bounds into the boot info page; this allocator carves allocations out of
//! that range. Blocks form a doubly linked list in address order, kept in the
//! heap memory itself. `alloc` is a first fit, `dealloc` merges with the
//! neighbours, and `realloc` grows or shrinks in place whenever the
//! neighbouring block is free.
use vstd::prelude::*;

use crate::align;
use crate::rt::blocks;
use crate::rt::blocks::{Block, ALIGN, HEADER, MIN_SPLIT};
use crate::rt::info::BootInfo;
use crate::rt::report;
use crate::rt::report::Report;

verus! {

/// Where a payload keeps the distance back to its own header: this many bytes
/// below itself. An allocation with an alignment above [`ALIGN`] cannot start
/// right after the header, so the distance is not a constant.
pub const BACK: u64 = 8;

/// Size of the address space a task runs in: no heap is larger.
pub const USER_SPACE: u64 = 0x0000_8000_0000_0000;

/// The allocator state. The block headers themselves live in the heap memory,
/// which every operation takes as `mem`; its first byte has address `head`.
pub struct K1kHeap {
    /// Address of the first block, 0 until the first allocation.
    pub head: u64,
    pub in_use: u64,
    pub peak: u64,
    pub live: u64,
    pub allocs: u64,
    pub frees: u64,
    pub failures: u64,
    /// The block list the memory holds.
    pub blocks: Ghost<Seq<Block>>,
}

/// Size and alignment of a request.
#[derive(Clone, Copy, Debug, PartialEq, Eq, Structural)]
pub struct Layout {
    pub size: u64,
    pub align: u64,
}

impl Layout {
    /// The bound every memory layout keeps: the size, rounded up to the
    /// alignment, fits a signed word.
    pub open spec fn valid(self) -> bool {
        self.size + self.align <= 0x8000_0000_0000_0000
    }

    /// The alignment the payload gets.
    pub open spec fn payload_align(self) -> int {
        if self.align < ALIGN {
            ALIGN as int
        } else {
            self.align as int
        }
    }

    /// Bytes the payload gets.
    pub open spec fn payload_size(self) -> int {
        if self.size == 0 {
            1
        } else {
            self.size as int
        }
    }

    /// Block size a request needs: header, payload, and enough slack to place
    /// the payload, rounded up so the next block starts on an [`ALIGN`]
    /// boundary.
    pub open spec fn need(self) -> int {
        align::round_up(self.payload_size() + HEADER + (self.payload_align() - 1), ALIGN as int)
    }

    /// Whether the alignment can be honoured at all.
    pub open spec fn placeable(self) -> bool {
        vstd::arithmetic::power2::is_pow2(self.payload_align())
    }
}

/// The answer to a request: the payload address, 0 when it failed, and the
/// message to log.
pub struct Outcome {
    pub ptr: u64,
    pub report: Option<Report>,
}

/// Heap counters, for services that want to report their memory use. All
/// zeroes mean the service never allocated.
#[derive(Clone, Copy, Debug, PartialEq, Eq, Structural)]
pub struct HeapStats {
    pub in_use: u64,
    pub peak: u64,
    pub live: u64,
    pub allocs: u64,
    pub frees: u64,
    pub failures: u64,
}

impl Default for HeapStats {
    fn default() -> (r: Self)
        ensures
            r == (HeapStats { in_use: 0, peak: 0, live: 0, allocs: 0, frees: 0, failures: 0 }),
    {
        HeapStats { in_use: 0, peak: 0, live: 0, allocs: 0, frees: 0, failures: 0 }
    }
}

/// Whether a boot info record describes a heap the allocator can use.
pub open spec fn usable_heap(info: BootInfo) -> bool {
    info.heap_size >= MIN_SPLIT && info.heap_base % ALIGN == 0
}

impl K1kHeap {
    /// The heap memory holds exactly the block list, and the counters agree
    /// with it.
    pub open spec fn wf(&self, mem: Seq<u8>) -> bool {
        if self.head == 0 {
            self.blocks@.len() == 0 && self.in_use == 0 && self.live == 0
        } else {
            &&& blocks::list_ok(mem, self.head as int, self.blocks@)
            &&& self.in_use == blocks::used_bytes(self.blocks@)
            &&& self.live == blocks::used_count(self.blocks@)
        }
    }

    /// The boot info record, if there is one, describes the memory at hand.
    pub open spec fn fits(&self, mem: Seq<u8>, info: Option<BootInfo>) -> bool {
        self.head == 0 ==> (info matches Some(i) ==> {
            &&& i.heap_size == mem.len()
            &&& 0 < i.heap_base
            &&& i.heap_base + i.heap_size <= u64::MAX
        })
    }

    /// The block list once the heap has been set up: the current one, or one
    /// free block over the whole range of a usable boot info record.
    pub open spec fn ready_blocks(&self, info: Option<BootInfo>) -> Seq<Block> {
        if self.head != 0 {
            self.blocks@
        } else {
            match info {
                Some(i) => if usable_heap(i) {
                    seq![
                        Block {
                            addr: i.heap_base as int,
                            size: i.heap_size - i.heap_size % 2,
                            free: true,
                        },
                    ]
                } else {
                    Seq::empty()
                },
                None => Seq::empty(),
            }
        }
    }

    /// The counters and the list head are the same.
    pub open spec fn same_counters(&self, other: &K1kHeap) -> bool {
        &&& self.in_use == other.in_use
        &&& self.peak == other.peak
        &&& self.live == other.live
        &&& self.allocs == other.allocs
        &&& self.frees == other.frees
        &&& self.failures == other.failures
    }

    /// An allocator that has not seen its heap yet.
    pub fn new() -> (r: Self)
        ensures
            r.head == 0,
            r.blocks@ == Seq::<Block>::empty(),
            r.in_use == 0,
            r.peak == 0,
            r.live == 0,
            r.allocs == 0,
            r.frees == 0,
            r.failures == 0,
    {
        K1kHeap {
            head: 0,
            in_use: 0,
            peak: 0,
            live: 0,
            allocs: 0,
            frees: 0,
            failures: 0,
            blocks: Ghost(Seq::empty()),
        }
    }

    /// Carve the heap into a single free block on first use. Nothing to do when
    /// the boot info record is missing or describes no usable heap: the
    /// allocator then fails every request.
    fn init(&mut self, mem: &mut [u8], info: Option<BootInfo>)
        requires
            old(self).wf(old(mem)@),
            old(self).fits(old(mem)@, info),
        ensures
            final(self).wf(final(mem)@),
            final(self).same_counters(old(self)),
            final(self).blocks@ == old(self).ready_blocks(info),
            final(self).head == 0 <==> final(self).blocks@.len() == 0,
            old(self).head != 0 ==> final(self).head == old(self).head,
            old(self).head == 0 && final(self).head != 0 ==> info is Some && final(self).head
                == info->0.heap_base,
            final(mem)@.len() == old(mem)@.len(),
            old(self).head != 0 ==> final(mem)@ == old(mem)@,
    {
        if self.head != 0 {
            proof {
                reveal(blocks::tiles);
            }
            return ;
        }
        assert(self.blocks@ =~= Seq::empty());
        let i: BootInfo = match info {
            Some(i) => i,
            None => {
                return ;
            },
        };
        let base: u64 = i.heap_base;
        let size: u64 = i.heap_size;
        if size < MIN_SPLIT || base % ALIGN != 0 {
            return ;
        }
        let even: u64 = size - size % 2;
        blocks::put_word(mem, base, base, even + 1);
        blocks::put_word(mem, base, base + 8, 0);
        blocks::put_word(mem, base, base + 16, 0);
        self.head = base;
        let ghost b = Block { addr: base as int, size: even as int, free: true };
        proof {
            reveal(blocks::tiles);
            self.blocks@ = seq![b];
            assert(self.blocks@.drop_last() =~= Seq::empty());
            assert(blocks::total(self.blocks@.drop_last(), true) == 0);
            assert(blocks::total(self.blocks@.drop_last(), false) == 0);
            assert(blocks::tiles(base as int, mem@.len() as int, self.blocks@));
            assert(blocks::header_ok(mem@, base as int, self.blocks@, 0));
        }
    }

    /// Split the allocated block at `cur`, leaving a free tail behind when it
    /// is worth it. Returns the number of bytes handed back to the free list.
    fn split_tail(&mut self, mem: &mut [u8], cur: u64, keep: u64, Ghost(i): Ghost<int>) -> (r: u64)
        requires
            old(self).head != 0,
            blocks::list_ok(old(mem)@, old(self).head as int, old(self).blocks@),
            0 <= i < old(self).blocks@.len(),
            old(self).blocks@[i].addr == cur,
            !old(self).blocks@[i].free,
            keep % 16 == 0,
            MIN_SPLIT <= keep <= old(self).blocks@[i].size,
        ensures
            final(self).same_counters(old(self)),
            final(self).head == old(self).head,
            final(self).blocks@ == blocks::cut(old(self).blocks@, i, keep as int),
            final(mem)@.len() == old(mem)@.len(),
            blocks::list_ok(final(mem)@, final(self).head as int, final(self).blocks@),
            r == old(self).blocks@[i].size - final(self).blocks@[i].size,
            forall|k: int|
                0 <= k < old(mem)@.len() && final(mem)@[k] != #[trigger] old(mem)@[k] ==> {
                    let a = old(self).head + k;
                    ||| cur <= a < cur + 24
                    ||| cur + keep <= a < old(self).blocks@[i].end() + 24
                },
    {
        let base: u64 = self.head;
        let ghost old_blocks = self.blocks@;
        let ghost m0 = mem@;
        proof {
            assert(blocks::header_ok(m0, base as int, old_blocks, i));
            blocks::lemma_cut(base as int, m0.len() as int, old_blocks, i, keep as int);
            blocks::lemma_tile(base as int, m0.len() as int, old_blocks, i);
        }
        let total: u64 = blocks::get_word(mem, base, cur);
        if total - keep < MIN_SPLIT {
            proof {
                assert(blocks::cut(old_blocks, i, keep as int) =~= old_blocks);
            }
            return 0;
        }
        let give: u64 = total - keep;
        let after: u64 = blocks::get_word(mem, base, cur + 8);
        let tail: u64 = cur + keep;
        blocks::put_word(mem, base, cur, keep);
        blocks::put_word(mem, base, tail, give + 1);
        blocks::put_word(mem, base, tail + 8, after);
        blocks::put_word(mem, base, tail + 16, cur);
        if after != 0 {
            proof {
                blocks::lemma_tile(base as int, m0.len() as int, old_blocks, i + 1);
                blocks::lemma_order(base as int, m0.len() as int, old_blocks, i, i + 1);
            }
            blocks::put_word(mem, base, after + 16, tail);
        }
        blocks::put_word(mem, base, cur + 8, tail);
        let ghost r = blocks::cut(old_blocks, i, keep as int);
        proof {
            self.blocks@ = r;
            assert forall|k: int| 0 <= k < r.len() implies #[trigger] blocks::header_ok(
                mem@,
                base as int,
                r,
                k,
            ) by {
                let o = if k <= i {
                    k
                } else {
                    k - 1
                };
                assert(blocks::header_ok(m0, base as int, old_blocks, o));
                blocks::lemma_tile(base as int, m0.len() as int, old_blocks, o);
                if o < i {
                    blocks::lemma_order(base as int, m0.len() as int, old_blocks, o, i);
                } else if o > i {
                    blocks::lemma_order(base as int, m0.len() as int, old_blocks, i, o);
                    blocks::lemma_order(base as int, m0.len() as int, old_blocks, i, i + 1);
                    if o > i + 1 {
                        blocks::lemma_order(base as int, m0.len() as int, old_blocks, i + 1, o);
                    }
                }
            }
        }
        give
    }

    /// Let the block at `cur` swallow its free successor at `next`.
    fn join_next(&mut self, mem: &mut [u8], cur: u64, next: u64, Ghost(i): Ghost<int>)
        requires
            old(self).head != 0,
            blocks::list_ok(old(mem)@, old(self).head as int, old(self).blocks@),
            0 <= i,
            i + 1 < old(self).blocks@.len(),
            old(self).blocks@[i].addr == cur,
            old(self).blocks@[i + 1].addr == next,
            old(self).blocks@[i + 1].free,
        ensures
            final(self).same_counters(old(self)),
            final(self).head == old(self).head,
            final(self).blocks@ == blocks::join(old(self).blocks@, i),
            final(mem)@.len() == old(mem)@.len(),
            blocks::list_ok(final(mem)@, final(self).head as int, final(self).blocks@),
            forall|k: int|
                0 <= k < old(mem)@.len() && final(mem)@[k] != #[trigger] old(mem)@[k] ==> {
                    let a = old(self).head + k;
                    ||| cur <= a < cur + 24
                    ||| old(self).blocks@[i + 1].end() <= a < old(self).blocks@[i + 1].end() + 24
                },
    {
        let base: u64 = self.head;
        let ghost old_blocks = self.blocks@;
        let ghost m0 = mem@;
        proof {
            assert(blocks::header_ok(m0, base as int, old_blocks, i));
            assert(blocks::header_ok(m0, base as int, old_blocks, i + 1));
            blocks::lemma_join(base as int, m0.len() as int, old_blocks, i);
            blocks::lemma_tile(base as int, m0.len() as int, old_blocks, i);
            blocks::lemma_tile(base as int, m0.len() as int, old_blocks, i + 1);
            blocks::lemma_order(base as int, m0.len() as int, old_blocks, i, i + 1);
        }
        let flags: u64 = blocks::get_word(mem, base, cur);
        let extra: u64 = blocks::get_word(mem, base, next) - 1;
        let after: u64 = blocks::get_word(mem, base, next + 8);
        blocks::put_word(mem, base, cur, flags + extra);
        blocks::put_word(mem, base, cur + 8, after);
        if after != 0 {
            proof {
                blocks::lemma_tile(base as int, m0.len() as int, old_blocks, i + 2);
                blocks::lemma_order(base as int, m0.len() as int, old_blocks, i + 1, i + 2);
            }
            blocks::put_word(mem, base, after + 16, cur);
        }
        let ghost r = blocks::join(old_blocks, i);
        proof {
            self.blocks@ = r;
            assert forall|k: int| 0 <= k < r.len() implies #[trigger] blocks::header_ok(
                mem@,
                base as int,
                r,
                k,
            ) by {
                let o = if k <= i {
                    k
                } else {
                    k + 1
                };
                assert(blocks::header_ok(m0, base as int, old_blocks, o));
                blocks::lemma_tile(base as int, m0.len() as int, old_blocks, o);
                if o < i {
                    blocks::lemma_order(base as int, m0.len() as int, old_blocks, o, i);
                } else if o > i {
                    blocks::lemma_order(base as int, m0.len() as int, old_blocks, i + 1, o);
                    if o > i + 2 {
                        blocks::lemma_order(base as int, m0.len() as int, old_blocks, i + 2, o);
                    }
                }
            }
        }
    }

    /// Take a block out of the free list, splitting off a free tail when it is
    /// big enough to be useful. Returns the block's address, or 0 when nothing
    /// fits.
    fn take_block(&mut self, mem: &mut [u8], info: Option<BootInfo>, need: u64) -> (r: u64)
        requires
            old(self).wf(old(mem)@),
            old(self).fits(old(mem)@, info),
            need % 16 == 0,
            need >= MIN_SPLIT,
        ensures
            final(self).same_counters(old(self)),
            old(self).head != 0 ==> final(self).head == old(self).head,
            old(self).head == 0 && final(self).head != 0 ==> info is Some && final(self).head
                == info->0.heap_base,
            final(self).head == 0 <==> final(self).blocks@.len() == 0,
            final(mem)@.len() == old(mem)@.len(),
            final(self).head != 0 ==> blocks::list_ok(
                final(mem)@,
                final(self).head as int,
                final(self).blocks@,
            ),
            ({
                let b = old(self).ready_blocks(info);
                let i = blocks::first_fit(b, need as int);
                &&& i == b.len() ==> r == 0 && final(self).blocks@ == b && final(self).wf(final(mem)@)
                &&& i != b.len() ==> {
                    &&& 0 <= i < b.len()
                    &&& b[i].free
                    &&& need <= b[i].size
                    &&& r == b[i].addr
                    &&& r != 0
                    &&& final(self).blocks@ == blocks::cut(b, i, need as int)
                    &&& blocks::used_bytes(final(self).blocks@) == old(self).in_use
                        + final(self).blocks@[i].size
                    &&& blocks::used_count(final(self).blocks@) == old(self).live + 1
                }
                &&& final(self).head != 0 ==> blocks::tiles(
                    final(self).head as int,
                    old(mem)@.len() as int,
                    b,
                )
                &&& blocks::payloads_kept(old(mem)@, final(mem)@, final(self).head as int, b, -1)
            }),
    {
        let ghost orig = mem@;
        let ghost b = self.ready_blocks(info);
        self.init(mem, info);
        let base: u64 = self.head;
        let ghost m0 = mem@;
        let mut cur: u64 = self.head;
        let ghost mut k: int = 0;
        proof {
            if base != 0 {
                blocks::lemma_tile(base as int, m0.len() as int, b, 0);
            }
        }
        while cur != 0
            invariant
                self.blocks@ == b,
                self.head == base,
                self.wf(mem@),
                mem@ == m0,
                self.same_counters(old(self)),
                0 <= k <= b.len(),
                base == 0 <==> b.len() == 0,
                cur == if k < b.len() {
                    b[k].addr
                } else {
                    0
                },
                blocks::first_fit(b, need as int) == blocks::fit_from(b, need as int, k),
                need % 16 == 0,
                need >= MIN_SPLIT,
                m0.len() == orig.len(),
                b == old(self).ready_blocks(info),
                old(self).head != 0 ==> m0 == orig && base == old(self).head,
                old(self).head == 0 && base != 0 ==> info is Some && base == info->0.heap_base,
                orig == old(mem)@,
                old(self).wf(orig),
            decreases b.len() - k,
        {
            proof {
                blocks::lemma_tile(base as int, m0.len() as int, b, k);
                assert(blocks::header_ok(m0, base as int, b, k));
            }
            let flags: u64 = blocks::get_word(mem, base, cur);
            if flags % 2 != 0 && flags - 1 >= need {
                let total: u64 = flags - 1;
                blocks::put_word(mem, base, cur, total);
                let ghost u = b.update(
                    k,
                    Block { addr: cur as int, size: total as int, free: false },
                );
                proof {
                    assert(b[k].size == total && b[k].free);
                    lemma_claimed(m0, mem@, base as int, b, k);
                    self.blocks@ = u;
                }
                let _given: u64 = self.split_tail(mem, cur, need, Ghost(k));
                proof {
                    blocks::lemma_cut(base as int, m0.len() as int, b, k, need as int);
                    assert(blocks::cut(u, k, need as int) =~= blocks::cut(b, k, need as int));
                    lemma_ready_free(old(self), info, orig);
                    assert forall|j: int, a: int|
                        #![trigger b[j], mem@[a]]
                        0 <= j < b.len() && j != -1 && !b[j].free && b[j].addr + 24 <= base + a
                            < b[j].end() && 0 <= a < orig.len() implies mem@[a] == orig[a] by {
                        assert(old(self).head != 0);
                        if j < k {
                            blocks::lemma_order(base as int, m0.len() as int, b, j, k);
                        } else if k < j {
                            blocks::lemma_order(base as int, m0.len() as int, b, k, j);
                        }
                    }
                }
                return cur;
            }
            cur = blocks::get_word(mem, base, cur + 8);
            proof {
                k = k + 1;
                if k < b.len() {
                    blocks::lemma_tile(base as int, m0.len() as int, b, k);
                }
            }
        }
        proof {
            if k < b.len() {
                blocks::lemma_tile(base as int, m0.len() as int, b, k);
            }
            lemma_ready_free(old(self), info, orig);
        }
        0
    }

    /// Return a block to the free list, merging it with free neighbours.
    fn give_block(&mut self, mem: &mut [u8], cur: u64, Ghost(i): Ghost<int>)
        requires
            old(self).head != 0,
            blocks::list_ok(old(mem)@, old(self).head as int, old(self).blocks@),
            0 <= i < old(self).blocks@.len(),
            old(self).blocks@[i].addr == cur,
            !old(self).blocks@[i].free,
        ensures
            final(self).same_counters(old(self)),
            final(self).head == old(self).head,
            final(self).blocks@ == blocks::given(old(self).blocks@, i),
            final(mem)@.len() == old(mem)@.len(),
            blocks::list_ok(final(mem)@, final(self).head as int, final(self).blocks@),
            blocks::used_bytes(final(self).blocks@) == blocks::used_bytes(old(self).blocks@)
                - old(self).blocks@[i].size,
            blocks::used_count(final(self).blocks@) == blocks::used_count(old(self).blocks@) - 1,
            blocks::payloads_kept(
                old(mem)@,
                final(mem)@,
                old(self).head as int,
                old(self).blocks@,
                i,
            ),
    {
        let base: u64 = self.head;
        let ghost b = self.blocks@;
        let ghost m0 = mem@;
        let ghost len = m0.len() as int;
        proof {
            blocks::lemma_tile(base as int, len, b, i);
            assert(blocks::header_ok(m0, base as int, b, i));
        }
        let total: u64 = blocks::get_word(mem, base, cur);
        blocks::put_word(mem, base, cur, total + 1);
        let ghost f = blocks::freed(b, i);
        let ghost m1 = mem@;
        proof {
            lemma_released(m0, m1, base as int, b, i);
            self.blocks@ = f;
            blocks::lemma_freed(base as int, len, b, i);
            assert(blocks::header_ok(m1, base as int, f, i));
            if i + 1 < f.len() {
                blocks::lemma_tile(base as int, len, f, i + 1);
                assert(blocks::header_ok(m1, base as int, f, i + 1));
            }
        }
        let next: u64 = blocks::get_word(mem, base, cur + 8);
        if next != 0 {
            let next_flags: u64 = blocks::get_word(mem, base, next);
            if next_flags % 2 != 0 {
                proof {
                    blocks::lemma_join(base as int, len, f, i);
                }
                self.join_next(mem, cur, next, Ghost(i));
            }
        }
        let ghost s = self.blocks@;
        let ghost m2 = mem@;
        proof {
            assert(s == blocks::join_if_free(f, i));
            assert(s[i].addr == cur && s[i].free);
            blocks::lemma_tile(base as int, len, s, i);
            assert(blocks::header_ok(m2, base as int, s, i));
            if i > 0 {
                assert(s[i - 1] == f[i - 1]);
            }
        }
        let prev: u64 = blocks::get_word(mem, base, cur + 16);
        if prev != 0 {
            proof {
                blocks::lemma_tile(base as int, len, s, i - 1);
                assert(blocks::header_ok(m2, base as int, s, i - 1));
            }
            let prev_flags: u64 = blocks::get_word(mem, base, prev);
            if prev_flags % 2 != 0 {
                proof {
                    blocks::lemma_join(base as int, len, s, i - 1);
                }
                self.join_next(mem, prev, cur, Ghost(i - 1));
            }
        }
        proof {
            if i > 0 {
                blocks::lemma_tile(base as int, len, s, i - 1);
            }
            assert(self.blocks@ == blocks::given(b, i));
            assert forall|j: int, a: int|
                #![trigger b[j], mem@[a]]
                0 <= j < b.len() && j != i && !b[j].free && b[j].addr + 24 <= base + a < b[j].end()
                    && 0 <= a < m0.len() implies mem@[a] == m0[a] by {
                blocks::lemma_tile(base as int, len, b, j);
                if j < i {
                    blocks::lemma_order(base as int, len, b, j, i);
                    if i > 0 && j < i - 1 {
                        blocks::lemma_order(base as int, len, b, j, i - 1);
                    }
                } else {
                    blocks::lemma_order(base as int, len, b, i, j);
                    if j > i + 1 {
                        blocks::lemma_order(base as int, len, b, i + 1, j);
                    }
                }
                if i + 1 < b.len() {
                    blocks::lemma_order(base as int, len, b, i, i + 1);
                }
                if i > 0 {
                    blocks::lemma_order(base as int, len, b, i - 1, i);
                }
                assert(m1[a] == m0[a]);
                assert(m2[a] == m1[a]);
                assert(mem@[a] == m2[a]);
            }
        }
    }

    /// Block `i` is allocated and `ptr` is its payload: inside the block, past
    /// its header, with the way back to the header stored right below.
    pub open spec fn owns_at(&self, mem: Seq<u8>, ptr: int, i: int) -> bool {
        &&& self.head != 0
        &&& 0 <= i < self.blocks@.len()
        &&& !self.blocks@[i].free
        &&& ptr % 16 == 0
        &&& self.blocks@[i].addr + HEADER <= ptr < self.blocks@[i].end()
        &&& blocks::word(mem, self.head as int, ptr - BACK) == ptr - self.blocks@[i].addr
    }

    /// `ptr` is a live payload of this heap.
    pub open spec fn owns(&self, mem: Seq<u8>, ptr: int) -> bool {
        exists|i: int| self.owns_at(mem, ptr, i)
    }

    /// The counters can still count.
    pub open spec fn can_count(&self) -> bool {
        self.allocs < u64::MAX && self.frees < u64::MAX && self.failures < u64::MAX
    }

    /// What a successful allocation of `layout` from block `i` of the list `b`
    /// leaves behind.
    pub open spec fn allocated(
        &self,
        old: &K1kHeap,
        mem: Seq<u8>,
        b: Seq<Block>,
        i: int,
        layout: Layout,
        ptr: int,
    ) -> bool {
        &&& ptr == align::round_up(b[i].addr + HEADER, layout.payload_align())
        &&& self.blocks@ == blocks::cut(b, i, layout.need())
        &&& self.owns_at(mem, ptr, i)
        &&& ptr % layout.payload_align() == 0
        &&& ptr + layout.payload_size() <= self.blocks@[i].end()
        &&& self.in_use == old.in_use + self.blocks@[i].size
        &&& self.peak == if old.peak < self.in_use {
            self.in_use
        } else {
            old.peak
        }
        &&& self.live == old.live + 1
        &&& self.allocs == old.allocs + 1
        &&& self.frees == old.frees
        &&& self.failures == old.failures
    }

    /// What a failed allocation leaves behind: the list as it was, one more
    /// failure, and a report for the first three.
    pub open spec fn refused(&self, old: &K1kHeap, b: Seq<Block>, layout: Layout, r: Outcome) -> bool {
        &&& r.ptr == 0
        &&& self.blocks@ == b
        &&& self.in_use == old.in_use
        &&& self.peak == old.peak
        &&& self.live == old.live
        &&& self.allocs == old.allocs
        &&& self.frees == old.frees
        &&& self.failures == old.failures + 1
        &&& r.report is Some <==> self.failures <= 3
        &&& r.report matches Some(rep) ==> rep.wf() && rep.text() == report::exhaustion_text(
            layout.size,
            old.in_use,
            old.peak,
            self.failures,
        )
    }

    /// What a request for `layout` answers and leaves behind, on the heap `old`
    /// with memory `m0`; `self` and `m1` are what it leaves.
    pub open spec fn served(
        &self,
        old: &K1kHeap,
        m0: Seq<u8>,
        m1: Seq<u8>,
        info: Option<BootInfo>,
        layout: Layout,
        r: Outcome,
    ) -> bool {
        let b = old.ready_blocks(info);
        let i = blocks::first_fit(b, layout.need());
        &&& m1.len() == m0.len()
        &&& old.head != 0 ==> self.head == old.head
        &&& old.head == 0 && self.head != 0 ==> info is Some && self.head == info->0.heap_base
        &&& !layout.placeable() ==> r.ptr == 0 && r.report is None && *self == *old && m1 == m0
        &&& layout.placeable() && i == b.len() ==> self.refused(old, b, layout, r)
        &&& layout.placeable() && i != b.len() ==> {
            &&& 0 <= i < b.len()
            &&& b[i].free
            &&& r.ptr != 0
            &&& r.report is None
            &&& self.allocated(old, m1, b, i, layout, r.ptr as int)
        }
        &&& layout.placeable() ==> blocks::payloads_kept(m0, m1, self.head as int, b, -1)
        &&& forall|p: int| old.owns(m0, p) ==> #[trigger] self.owns(m1, p)
        &&& blocks::coalesced(old.blocks@) ==> blocks::coalesced(self.blocks@)
    }

    /// Allocate: first fit over the block list, the payload placed at the first
    /// address in the block that honours the alignment.
    pub fn allocate(&mut self, mem: &mut [u8], info: Option<BootInfo>, layout: Layout) -> (r: Outcome)
        requires
            old(self).wf(old(mem)@),
            old(self).fits(old(mem)@, info),
            old(self).can_count(),
            layout.valid(),
        ensures
            final(self).wf(final(mem)@),
            final(self).served(old(self), old(mem)@, final(mem)@, info, layout, r),
    {
        let al: u64 = if layout.align < ALIGN {
            ALIGN
        } else {
            layout.align
        };
        if !align::is_power_of_two(al) {
            return Outcome { ptr: 0, report: None };
        }
        let want: u64 = if layout.size == 0 {
            1
        } else {
            layout.size
        };
        let need: u64 = block_for(want, al);
        let ghost m0 = mem@;
        let ghost b = self.ready_blocks(info);
        let ghost i = blocks::first_fit(b, need as int);
        proof {
            lemma_ready_free(old(self), info, m0);
        }
        let cur: u64 = self.take_block(mem, info, need);
        let ghost m1 = mem@;
        let ghost base = self.head as int;
        if cur == 0 {
            self.failures = self.failures + 1;
            let rep: Option<Report> = report::report_exhaustion(
                layout.size,
                self.in_use,
                self.peak,
                self.failures,
            );
            proof {
                assert forall|p: int| old(self).owns(m0, p) implies #[trigger] self.owns(mem@, p) by {
                    let j = choose|j: int| old(self).owns_at(m0, p, j);
                    lemma_owns_kept(old(self), self, m0, mem@, p, j, -1);
                }
            }
            return Outcome { ptr: 0, report: rep };
        }
        let ghost c = self.blocks@;
        proof {
            blocks::lemma_tile(base, m1.len() as int, c, i);
            blocks::lemma_tiled_totals(base, m1.len() as int, c);
            assert(blocks::header_ok(m1, base, c, i));
        }
        let payload: u64 = align::align_up(cur + HEADER, al);
        proof {
            lemma_sixteen(al, payload);
        }
        blocks::put_word(mem, self.head, payload - BACK, payload - cur);
        proof {
            assert forall|k: int| 0 <= k < m1.len() && mem@[k] != #[trigger] m1[k] implies c[i].addr + 24
                <= base + k < c[i].end() by {}
            blocks::lemma_payload_write(m1, mem@, base, c, i);
            assert(blocks::header_ok(mem@, base, c, i));
        }
        let size: u64 = blocks::get_word(mem, self.head, cur);
        self.in_use = self.in_use + size;
        self.live = self.live + 1;
        self.allocs = self.allocs + 1;
        if self.peak < self.in_use {
            self.peak = self.in_use;
        }
        proof {
            assert(self.owns_at(mem@, payload as int, i));
            assert forall|j: int, a: int|
                #![trigger b[j], mem@[a]]
                0 <= j < b.len() && j != -1 && !b[j].free && b[j].addr + 24 <= base + a < b[j].end() && 0
                    <= a < m0.len() implies mem@[a] == m0[a] by {
                if j < i {
                    blocks::lemma_order(base, m0.len() as int, b, j, i);
                } else if j > i {
                    blocks::lemma_order(base, m0.len() as int, b, i, j);
                }
                assert(m1[a] == m0[a]);
            }
            assert forall|p: int| old(self).owns(m0, p) implies #[trigger] self.owns(mem@, p) by {
                let j = choose|j: int| old(self).owns_at(m0, p, j);
                blocks::lemma_cut_keeps(b, i, need as int, j);
                lemma_owns_kept(old(self), self, m0, mem@, p, j, -1);
            }
            if blocks::coalesced(old(self).blocks@) {
                blocks::lemma_cut_coalesced(b, i, need as int);
            }
        }
        Outcome { ptr: payload, report: None }
    }

    /// What releasing block `i` leaves behind.
    pub open spec fn released(&self, old: &K1kHeap, m0: Seq<u8>, m1: Seq<u8>, i: int) -> bool {
        &&& self.head == old.head
        &&& m1.len() == m0.len()
        &&& self.blocks@ == blocks::given(old.blocks@, i)
        &&& self.in_use == old.in_use - old.blocks@[i].size
        &&& self.live == old.live - 1
        &&& self.frees == old.frees + 1
        &&& self.peak == old.peak
        &&& self.allocs == old.allocs
        &&& self.failures == old.failures
        &&& blocks::payloads_kept(m0, m1, old.head as int, old.blocks@, i)
        &&& forall|p: int, j: int|
            #![trigger old.owns_at(m0, p, j)]
            old.owns_at(m0, p, j) && j != i ==> self.owns(m1, p)
        &&& blocks::coalesced(old.blocks@) ==> blocks::coalesced(self.blocks@)
    }

    /// Release a payload. Releasing address 0 does nothing.
    pub fn dealloc(&mut self, mem: &mut [u8], ptr: u64)
        requires
            old(self).wf(old(mem)@),
            ptr != 0 ==> old(self).owns(old(mem)@, ptr as int),
            old(self).frees < u64::MAX,
        ensures
            final(self).wf(final(mem)@),
            ptr == 0 ==> *final(self) == *old(self) && final(mem)@ == old(mem)@,
            forall|i: int|
                ptr != 0 && #[trigger] old(self).owns_at(old(mem)@, ptr as int, i) ==> final(self).released(old(self), old(mem)@, final(mem)@, i),
    {
        if ptr == 0 {
            return ;
        }
        let ghost m0 = mem@;
        let ghost b = self.blocks@;
        let ghost base = self.head as int;
        let ghost i = choose|i: int| self.owns_at(m0, ptr as int, i);
        proof {
            blocks::lemma_tile(base, m0.len() as int, b, i);
            assert(blocks::header_ok(m0, base, b, i));
            assert(b[i].size >= 0 && forall|k: int|
                0 <= k < b.len() ==> #[trigger] b[k].size >= 0) by {
                reveal(blocks::tiles);
            }
            blocks::lemma_weight_le(b, true, i);
            blocks::lemma_weight_le(b, false, i);
        }
        let cur: u64 = self.header_of(mem, ptr, Ghost(i));
        let size: u64 = blocks::get_word(mem, self.head, cur);
        self.in_use = self.in_use - size;
        self.live = self.live.saturating_sub(1);
        self.frees = self.frees + 1;
        self.give_block(mem, cur, Ghost(i));
        proof {
            assert forall|p: int, j: int|
                #![trigger old(self).owns_at(m0, p, j)]
                old(self).owns_at(m0, p, j) && j != i implies self.owns(mem@, p) by {
                blocks::lemma_given_keeps(b, i, j);
                lemma_owns_kept(old(self), self, m0, mem@, p, j, i);
            }
            if blocks::coalesced(b) {
                blocks::lemma_given_coalesced(b, i);
            }
            assert forall|k: int| #[trigger]
                old(self).owns_at(m0, ptr as int, k) implies self.released(old(self), m0, mem@, k) by {
                lemma_one_owner(old(self), m0, ptr as int, i, k);
            }
        }
    }

    /// The header of the block a payload belongs to.
    fn header_of(&self, mem: &[u8], ptr: u64, Ghost(i): Ghost<int>) -> (r: u64)
        requires
            blocks::list_ok(mem@, self.head as int, self.blocks@),
            self.owns_at(mem@, ptr as int, i),
        ensures
            r == self.blocks@[i].addr,
    {
        proof {
            blocks::lemma_tile(self.head as int, mem@.len() as int, self.blocks@, i);
        }
        ptr - blocks::get_word(mem, self.head, ptr - BACK)
    }

    /// Allocate and clear.
    pub fn alloc_zeroed(&mut self, mem: &mut [u8], info: Option<BootInfo>, layout: Layout) -> (r: Outcome)
        requires
            old(self).wf(old(mem)@),
            old(self).fits(old(mem)@, info),
            old(self).can_count(),
            layout.valid(),
        ensures
            final(self).wf(final(mem)@),
            final(self).served(old(self), old(mem)@, final(mem)@, info, layout, r),
            r.ptr != 0 ==> forall|d: int|
                0 <= d < layout.size ==> #[trigger] final(mem)@[r.ptr - final(self).head + d] == 0,
    {
        let ghost m0 = mem@;
        let r: Outcome = self.allocate(mem, info, layout);
        if r.ptr == 0 {
            return r;
        }
        let ghost m1 = mem@;
        let ghost base = self.head as int;
        let ghost b = old(self).ready_blocks(info);
        let ghost i = blocks::first_fit(b, layout.need());
        let ghost c = self.blocks@;
        proof {
            blocks::lemma_tile(base, m1.len() as int, c, i);
        }
        assert(mem.len() == mem@.len());
        let at: usize = (r.ptr - self.head) as usize;
        let mut d: usize = 0;
        while d < layout.size as usize
            invariant
                layout.size <= usize::MAX,
                d <= layout.size,
                at + layout.size <= mem@.len(),
                mem@.len() == m1.len(),
                forall|k: int| 0 <= k < d ==> #[trigger] mem@[at + k] == 0,
                forall|k: int| 0 <= k < m1.len() && !(at <= k < at + layout.size) ==> mem@[k] == m1[k],
            decreases layout.size - d,
        {
            assert(mem.len() == mem@.len());
            mem[at + d] = 0;
            d = d + 1;
        }
        proof {
            lemma_own_write(self, m1, mem@, r.ptr as int, i);
            lemma_fresh_write(old(self), self, m0, m1, mem@, b, i, layout.need());
        }
        r
    }

    /// The block size a payload at `ptr` in block `i` needs for `new_size`
    /// bytes. The payload does not move, so the block only has to reach from
    /// its own header to the end of the new payload.
    pub open spec fn room_for(&self, ptr: int, i: int, new_size: int) -> int {
        align::round_up(ptr - self.blocks@[i].addr + new_size, ALIGN as int)
    }

    /// Whether the block after `i` is free and big enough to grow into.
    pub open spec fn can_absorb(&self, i: int, need: int) -> bool {
        &&& i + 1 < self.blocks@.len()
        &&& self.blocks@[i + 1].free
        &&& self.blocks@[i].size + self.blocks@[i + 1].size >= need
    }

    /// Whether cutting block `i` down to `need` bytes leaves a free block beside
    /// a free block.
    pub open spec fn leaves_gap(&self, i: int, need: int) -> bool {
        &&& i + 1 < self.blocks@.len()
        &&& self.blocks@[i + 1].free
        &&& self.blocks@[i].size - need >= MIN_SPLIT
    }

    /// What resizing the payload at `ptr` of block `i` in place leaves behind:
    /// the list `b`, nothing else counted but the bytes in use.
    pub open spec fn resized(
        &self,
        old: &K1kHeap,
        m0: Seq<u8>,
        m1: Seq<u8>,
        ptr: int,
        i: int,
        b: Seq<Block>,
    ) -> bool {
        &&& self.head == old.head
        &&& self.blocks@ == b
        &&& self.owns_at(m1, ptr, i)
        &&& self.in_use == old.in_use - old.blocks@[i].size + b[i].size
        &&& self.peak == old.peak
        &&& self.live == old.live
        &&& self.allocs == old.allocs
        &&& self.frees == old.frees
        &&& self.failures == old.failures
        &&& blocks::payloads_kept(m0, m1, old.head as int, old.blocks@, i)
        &&& forall|p: int, j: int|
            #![trigger old.owns_at(m0, p, j)]
            old.owns_at(m0, p, j) && j != i ==> self.owns(m1, p)
    }

    /// What moving the payload of block `i` to a block cut from block `k`
    /// leaves behind.
    pub open spec fn moved(
        &self,
        old: &K1kHeap,
        m0: Seq<u8>,
        m1: Seq<u8>,
        i: int,
        k: int,
        layout: Layout,
        fresh: int,
    ) -> bool {
        let b = old.blocks@;
        let c = blocks::cut(b, k, layout.need());
        &&& self.head == old.head
        &&& fresh == align::round_up(b[k].addr + HEADER, layout.payload_align())
        &&& fresh % layout.payload_align() == 0
        &&& fresh + layout.payload_size() <= c[k].end()
        &&& self.blocks@ == blocks::given(c, blocks::shifted(b, k, layout.need(), i))
        &&& self.owns(m1, fresh)
        &&& self.in_use == old.in_use + c[k].size - b[i].size
        &&& self.peak == if old.peak < old.in_use + c[k].size {
            old.in_use + c[k].size
        } else {
            old.peak as int
        }
        &&& self.live == old.live
        &&& self.allocs == old.allocs + 1
        &&& self.frees == old.frees + 1
        &&& self.failures == old.failures
        &&& blocks::payloads_kept(m0, m1, old.head as int, b, i)
        &&& forall|p: int, j: int|
            #![trigger old.owns_at(m0, p, j)]
            old.owns_at(m0, p, j) && j != i ==> self.owns(m1, p)
    }

    /// What resizing the payload at `ptr`, owned by block `i` and asked for as
    /// `layout`, to `new_size` bytes answers and leaves behind.
    pub open spec fn reallocated(
        &self,
        old: &K1kHeap,
        m0: Seq<u8>,
        m1: Seq<u8>,
        ptr: int,
        i: int,
        layout: Layout,
        new_size: u64,
        r: Outcome,
    ) -> bool {
        let b = old.blocks@;
        let need = old.room_for(ptr, i, new_size as int);
        let want = Layout { size: new_size, align: layout.align };
        let k = blocks::first_fit(b, want.need());
        &&& m1.len() == m0.len()
        &&& if need <= b[i].size {
            &&& r.ptr == ptr
            &&& r.report is None
            &&& self.resized(old, m0, m1, ptr, i, blocks::cut(b, i, need))
        } else if old.can_absorb(i, need) {
            &&& r.ptr == ptr
            &&& r.report is None
            &&& self.resized(old, m0, m1, ptr, i, blocks::cut(blocks::join(b, i), i, need))
        } else if !want.placeable() {
            &&& r.ptr == 0
            &&& r.report is None
            &&& *self == *old
            &&& m1 == m0
        } else if k == b.len() {
            &&& self.refused(old, b, want, r)
            &&& blocks::payloads_kept(m0, m1, old.head as int, b, -1)
            &&& forall|p: int| old.owns(m0, p) ==> #[trigger] self.owns(m1, p)
        } else {
            &&& 0 <= k < b.len()
            &&& k != i
            &&& r.ptr != 0
            &&& r.report is None
            &&& self.moved(old, m0, m1, i, k, want, r.ptr as int)
        }
        &&& r.ptr != 0 ==> forall|d: int|
            #![trigger m1[r.ptr - old.head + d]]
            0 <= d < layout.size && d < new_size ==> m1[r.ptr - old.head + d] == m0[ptr - old.head + d]
        &&& blocks::coalesced(b) && !old.leaves_gap(i, need) ==> blocks::coalesced(self.blocks@)
    }

    /// Resize a payload, in place when its block is big enough or the next one
    /// is free and big enough, by moving it otherwise. A move that finds no
    /// room leaves the old payload as it was. Resizing to nothing releases.
    pub fn realloc(
        &mut self,
        mem: &mut [u8],
        info: Option<BootInfo>,
        ptr: u64,
        layout: Layout,
        new_size: u64,
    ) -> (r: Outcome)
        requires
            old(self).wf(old(mem)@),
            ptr != 0 || new_size != 0 ==> old(self).owns(old(mem)@, ptr as int),
            forall|i: int| #[trigger]
                old(self).owns_at(old(mem)@, ptr as int, i) ==> ptr + layout.size
                    <= old(self).blocks@[i].end(),
            old(self).can_count(),
            (Layout { size: new_size, align: layout.align }).valid(),
            old(mem)@.len() <= USER_SPACE,
        ensures
            final(self).wf(final(mem)@),
            new_size == 0 ==> r.ptr == 0 && r.report is None,
            new_size == 0 && ptr == 0 ==> *final(self) == *old(self) && final(mem)@ == old(mem)@,
            forall|i: int|
                new_size == 0 && ptr != 0 && #[trigger] old(self).owns_at(old(mem)@, ptr as int, i)
                    ==> final(self).released(
                    old(self),
                    old(mem)@,
                    final(mem)@,
                    i,
                ),
            forall|i: int|
                new_size != 0 && #[trigger] old(self).owns_at(old(mem)@, ptr as int, i) ==> final(self).reallocated(
                    old(self),
                    old(mem)@,
                    final(mem)@,
                    ptr as int,
                    i,
                    layout,
                    new_size,
                    r,
                ),
    {
        if new_size == 0 {
            self.dealloc(mem, ptr);
            return Outcome { ptr: 0, report: None };
        }
        let ghost m0 = mem@;
        let ghost b = self.blocks@;
        let ghost base = self.head as int;
        let ghost len = m0.len() as int;
        let ghost i = choose|i: int| self.owns_at(m0, ptr as int, i);
        proof {
            assert forall|k: int| #[trigger] self.owns_at(m0, ptr as int, k) implies k == i by {
                lemma_one_owner(self, m0, ptr as int, k, i);
            }
            blocks::lemma_tile(base, len, b, i);
            assert(blocks::header_ok(m0, base, b, i));
            lemma_sixteen_pow2();
        }
        let cur: u64 = self.header_of(mem, ptr, Ghost(i));
        let offset: u64 = ptr - cur;
        let need: u64 = align::align_up(offset + new_size, ALIGN);
        if self.resize_in_place(mem, ptr, cur, need, Ghost(i)) {
            let r: Outcome = Outcome { ptr: ptr, report: None };
            proof {
                if blocks::coalesced(b) && !old(self).leaves_gap(i, need as int) {
                    if need <= b[i].size {
                        blocks::lemma_shrink_coalesced(b, i, need as int);
                    } else {
                        blocks::lemma_grow_coalesced(b, i, need as int);
                    }
                }
                assert(self.reallocated(old(self), m0, mem@, ptr as int, i, layout, new_size, r));
            }
            return r;
        }
        let n: u64 = if layout.size < new_size {
            layout.size
        } else {
            new_size
        };
        let want: Layout = Layout { size: new_size, align: layout.align };
        let r: Outcome = self.move_payload(mem, info, ptr, n, want, Ghost(i));
        proof {
            assert(self.reallocated(old(self), m0, mem@, ptr as int, i, layout, new_size, r));
        }
        r
    }

    /// Make block `i` hold `need` bytes without moving its payload, if it can.
    fn resize_in_place(
        &mut self,
        mem: &mut [u8],
        ptr: u64,
        cur: u64,
        need: u64,
        Ghost(i): Ghost<int>,
    ) -> (r: bool)
        requires
            old(self).wf(old(mem)@),
            old(self).owns_at(old(mem)@, ptr as int, i),
            cur == old(self).blocks@[i].addr,
            need % 16 == 0,
            need >= MIN_SPLIT,
            need > ptr - cur,
        ensures
            final(self).wf(final(mem)@),
            final(mem)@.len() == old(mem)@.len(),
            r == (need <= old(self).blocks@[i].size || old(self).can_absorb(i, need as int)),
            !r ==> *final(self) == *old(self) && final(mem)@ == old(mem)@,
            r ==> final(self).resized(
                old(self),
                old(mem)@,
                final(mem)@,
                ptr as int,
                i,
                if need <= old(self).blocks@[i].size {
                    blocks::cut(old(self).blocks@, i, need as int)
                } else {
                    blocks::cut(blocks::join(old(self).blocks@, i), i, need as int)
                },
            ),
            r ==> forall|k: int|
                ptr <= old(self).head + k < old(self).blocks@[i].end() && old(self).head + k < cur + need
                    ==> final(mem)@[k] == #[trigger] old(mem)@[k],
    {
        let ghost m0 = mem@;
        let ghost b = self.blocks@;
        let ghost base = self.head as int;
        let ghost len = m0.len() as int;
        proof {
            blocks::lemma_tile(base, len, b, i);
            assert(blocks::header_ok(m0, base, b, i));
        }
        let old_total: u64 = blocks::get_word(mem, self.head, cur);
        if need <= old_total {
            let given: u64 = self.split_tail(mem, cur, need, Ghost(i));
            proof {
                blocks::lemma_cut(base, len, b, i, need as int);
                blocks::lemma_tiled_totals(base, len, self.blocks@);
            }
            self.in_use = self.in_use - given;
            proof {
                lemma_cut_in_place(old(self), self, m0, mem@, ptr as int, i, b, need as int);
            }
            return true;
        }
        let next: u64 = blocks::get_word(mem, self.head, cur + 8);
        let mut extra: u64 = 0;
        proof {
            if i + 1 < b.len() {
                blocks::lemma_tile(base, len, b, i + 1);
                blocks::lemma_order(base, len, b, i, i + 1);
                assert(blocks::header_ok(m0, base, b, i + 1));
            }
        }
        if next != 0 {
            let flags: u64 = blocks::get_word(mem, self.head, next);
            if flags % 2 == 1 {
                extra = flags - 1;
            }
        }
        assert(i + 1 < b.len() && b[i + 1].free <==> extra != 0);
        assert(extra != 0 ==> extra == b[i + 1].size && next == b[i + 1].addr);
        if extra != 0 && old_total + extra >= need {
            let ghost g = blocks::join(b, i);
            self.join_next(mem, cur, next, Ghost(i));
            let ghost m1 = mem@;
            let left: u64 = self.split_tail(mem, cur, need, Ghost(i));
            proof {
                blocks::lemma_join(base, len, b, i);
                blocks::lemma_cut(base, len, g, i, need as int);
                blocks::lemma_tiled_totals(base, len, self.blocks@);
            }
            self.in_use = self.in_use + (extra - left);
            proof {
                assert forall|k: int| 0 <= k < len && mem@[k] != #[trigger] m0[k] implies {
                    let a = base + k;
                    ||| b[i].addr <= a < b[i].addr + 24
                    ||| b[i].addr + need <= a < g[i].end() + 24
                } by {
                    assert(m1[k] == m1[k]);
                }
                lemma_cut_in_place(old(self), self, m0, mem@, ptr as int, i, g, need as int);
            }
            return true;
        }
        false
    }

    /// Move the first `n` bytes of the payload of block `i` to a new block for
    /// `want` and release the old one.
    fn move_payload(
        &mut self,
        mem: &mut [u8],
        info: Option<BootInfo>,
        ptr: u64,
        n: u64,
        want: Layout,
        Ghost(i): Ghost<int>,
    ) -> (fresh: Outcome)
        requires
            old(self).wf(old(mem)@),
            old(self).owns_at(old(mem)@, ptr as int, i),
            old(self).can_count(),
            want.valid(),
            n <= want.size,
            ptr + n <= old(self).blocks@[i].end(),
        ensures
            final(self).wf(final(mem)@),
            final(mem)@.len() == old(mem)@.len(),
            blocks::coalesced(old(self).blocks@) ==> blocks::coalesced(final(self).blocks@),
            !want.placeable() ==> fresh.ptr == 0 && fresh.report is None && *final(self) == *old(self)
                && final(mem)@ == old(mem)@,
            ({
                let b = old(self).blocks@;
                let k = blocks::first_fit(b, want.need());
                &&& want.placeable() && k == b.len() ==> {
                    &&& final(self).refused(old(self), b, want, fresh)
                    &&& blocks::payloads_kept(old(mem)@, final(mem)@, old(self).head as int, b, -1)
                    &&& forall|p: int| old(self).owns(old(mem)@, p) ==> #[trigger] final(self).owns(final(mem)@, p)
                }
                &&& want.placeable() && k != b.len() ==> {
                    &&& 0 <= k < b.len()
                    &&& k != i
                    &&& fresh.ptr != 0
                    &&& fresh.report is None
                    &&& final(self).moved(
                        old(self),
                        old(mem)@,
                        final(mem)@,
                        i,
                        k,
                        want,
                        fresh.ptr as int,
                    )
                    &&& forall|d: int|
                        #![trigger final(mem)@[fresh.ptr - old(self).head + d]]
                        0 <= d < n ==> final(mem)@[fresh.ptr - old(self).head + d] == old(mem)@[ptr
                            - old(self).head + d]
                }
            }),
    {
        let ghost m0 = mem@;
        let ghost b = self.blocks@;
        let ghost base = self.head as int;
        let ghost len = m0.len() as int;
        proof {
            blocks::lemma_tile(base, len, b, i);
        }
        let fresh: Outcome = self.allocate(mem, info, want);
        if fresh.ptr == 0 {
            return fresh;
        }
        let ghost m1 = mem@;
        let ghost k = blocks::first_fit(b, want.need());
        let ghost c = self.blocks@;
        let ghost h1 = *self;
        let ghost i1 = blocks::shifted(b, k, want.need(), i);
        proof {
            assert(b[k].free);
            assert(c[i1] == b[i] && i1 != k);
            blocks::lemma_tile(base, len, c, k);
            blocks::lemma_tile(base, len, c, i1);
            if i1 < k {
                blocks::lemma_order(base, len, c, i1, k);
            } else {
                blocks::lemma_order(base, len, c, k, i1);
            }
            assert(mem.len() == mem@.len());
        }
        copy_within(mem, (ptr - self.head) as usize, (fresh.ptr - self.head) as usize, n as usize);
        let ghost m2 = mem@;
        proof {
            assert forall|x: int| 0 <= x < len && !(fresh.ptr <= base + x < c[k].end()) implies m2[x]
                == #[trigger] m1[x] by {}
            lemma_own_write(self, m1, m2, fresh.ptr as int, k);
            lemma_fresh_write(old(self), self, m0, m1, m2, b, k, want.need());
            assert forall|x: int| b[i].addr + 24 <= base + x < b[i].end() implies m2[x] == #[trigger] m0[x] by {
                assert(b[i] == b[i]);
                assert(m2[x] == m2[x]);
            }
            blocks::lemma_word_kept(m2, m0, base, ptr - BACK);
            assert(self.owns_at(m2, ptr as int, i1));
        }
        self.dealloc(mem, ptr);
        proof {
            assert(self.released(&h1, m2, mem@, i1));
            assert(h1.owns_at(m2, fresh.ptr as int, k));
            assert forall|p: int, j: int|
                #![trigger old(self).owns_at(m0, p, j)]
                old(self).owns_at(m0, p, j) && j != i implies self.owns(mem@, p) by {
                let j1 = blocks::shifted(b, k, want.need(), j);
                assert(j != k);
                assert(c[j1] == b[j] && j1 != i1);
                blocks::lemma_tile(base, len, b, j);
                assert forall|x: int| b[j].addr + 24 <= base + x < b[j].end() implies m2[x] == #[trigger] m0[x] by {
                    assert(b[j] == b[j]);
                    assert(m2[x] == m2[x]);
                }
                blocks::lemma_word_kept(m2, m0, base, p - BACK);
                assert(h1.owns_at(m2, p, j1));
            }
            assert forall|j: int, a: int|
                #![trigger b[j], mem@[a]]
                0 <= j < b.len() && j != i && !b[j].free && b[j].addr + 24 <= base + a < b[j].end() && 0 <= a
                    < len implies mem@[a] == m0[a] by {
                let j1 = blocks::shifted(b, k, want.need(), j);
                assert(c[j1] == b[j] && j1 != i1);
                assert(m2[a] == m0[a]);
            }
            assert forall|d: int|
                #![trigger mem@[fresh.ptr - base + d]]
                0 <= d < n implies mem@[fresh.ptr - base + d] == m0[ptr - base + d] by {
                let x = fresh.ptr - base + d;
                assert(c[k].addr + 24 <= base + x < c[k].end());
                assert(mem@[x] == m2[x]);
                assert(m2[x] == m1[ptr - base + d]);
                assert(b[i].addr + 24 <= ptr + d < b[i].end());
                assert(m1[ptr - base + d] == m0[ptr - base + d]);
            }
        }
        fresh
    }

    /// The counters.
    pub fn heap_stats(&self) -> (r: HeapStats)
        ensures
            r.in_use == self.in_use,
            r.peak == self.peak,
            r.live == self.live,
            r.allocs == self.allocs,
            r.frees == self.frees,
            r.failures == self.failures,
    {
        HeapStats {
            in_use: self.in_use,
            peak: self.peak,
            live: self.live,
            allocs: self.allocs,
            frees: self.frees,
            failures: self.failures,
        }
    }

    /// Bytes still available in the task's heap, or 0 if the allocator never ran.
    pub fn heap_free(&self, info: Option<BootInfo>) -> (r: u64)
        ensures
            info is None || self.head == 0 ==> r == 0,
            info matches Some(i) ==> self.head != 0 ==> r == if i.heap_size < self.in_use {
                0
            } else {
                i.heap_size - self.in_use
            },
    {
        match info {
            None => 0,
            Some(i) => if self.head == 0 {
                0
            } else {
                i.heap_size.saturating_sub(self.in_use)
            },
        }
    }
}

/// Copy `n` bytes from `from` to `to`; the two ranges do not overlap.
fn copy_within(mem: &mut [u8], from: usize, to: usize, n: usize)
    requires
        from + n <= old(mem)@.len(),
        to + n <= old(mem)@.len(),
        from + n <= to || to + n <= from,
    ensures
        final(mem)@.len() == old(mem)@.len(),
        forall|d: int| 0 <= d < n ==> #[trigger] final(mem)@[to + d] == old(mem)@[from + d],
        forall|k: int|
            0 <= k < old(mem)@.len() && !(to <= k < to + n) ==> final(mem)@[k] == #[trigger] old(mem)@[k],
{
    let mut d: usize = 0;
    assert(mem.len() == mem@.len());
    while d < n
        invariant
            d <= n,
            mem@.len() == old(mem)@.len(),
            from + n <= mem@.len() <= usize::MAX,
            to + n <= mem@.len(),
            from + n <= to || to + n <= from,
            forall|k: int| 0 <= k < d ==> #[trigger] mem@[to + k] == old(mem)@[from + k],
            forall|k: int|
                0 <= k < old(mem)@.len() && !(to <= k < to + d) ==> mem@[k] == #[trigger] old(mem)@[k],
        decreases n - d,
    {
        let v: u8 = mem[from + d];
        mem[to + d] = v;
        d = d + 1;
    }
}

/// Block size needed for `size` bytes at alignment `align`.
fn block_for(size: u64, align: u64) -> (r: u64)
    requires
        size >= 1,
        align >= 16,
        size + align <= 0x8000_0000_0000_0010,
    ensures
        r == align::round_up(size + HEADER + (align - 1), ALIGN as int),
        r % 16 == 0,
        r >= MIN_SPLIT,
        size + HEADER + (align - 1) <= r,
{
    proof {
        lemma_sixteen_pow2();
    }
    align::align_up(size + HEADER + (align - 1), ALIGN)
}

proof fn lemma_sixteen_pow2()
    ensures
        vstd::arithmetic::power2::is_pow2(16),
{
    reveal_with_fuel(vstd::arithmetic::power2::is_pow2, 6);
}

/// A multiple of a power of two of at least 16 is a multiple of 16.
proof fn lemma_sixteen(al: u64, v: u64)
    requires
        vstd::arithmetic::power2::is_pow2(al as int),
        al >= 16,
        v % al == 0,
    ensures
        v % 16 == 0,
{
    assert(al % 16 == 0) by {
        reveal_with_fuel(vstd::arithmetic::power2::is_pow2, 6);
    }
    let m = al as int / 16;
    let q = v as int / al as int;
    vstd::arithmetic::div_mod::lemma_fundamental_div_mod(v as int, al as int);
    assert(v == 16 * (m * q)) by (nonlinear_arith)
        requires
            v == al * q,
            al == 16 * m,
    ;
}

/// A payload whose block stays in the list and whose bytes are kept stays live.
proof fn lemma_owns_kept(
    h0: &K1kHeap,
    h1: &K1kHeap,
    m0: Seq<u8>,
    m1: Seq<u8>,
    p: int,
    j: int,
    except: int,
)
    requires
        h0.owns_at(m0, p, j),
        blocks::list_ok(m0, h0.head as int, h0.blocks@),
        h1.head == h0.head,
        m1.len() == m0.len(),
        j != except,
        blocks::payloads_kept(m0, m1, h0.head as int, h0.blocks@, except),
        h1.blocks@.contains(h0.blocks@[j]),
    ensures
        h1.owns(m1, p),
{
    let base = h0.head as int;
    let b = h0.blocks@;
    blocks::lemma_tile(base, m0.len() as int, b, j);
    assert forall|k: int| p - BACK <= base + k < p - BACK + 8 implies m1[k] == m0[k] by {
        assert(b[j].addr + 24 <= base + k < b[j].end());
    }
    blocks::lemma_word_kept(m1, m0, base, p - BACK);
    let k = choose|k: int| 0 <= k < h1.blocks@.len() && h1.blocks@[k] == b[j];
    assert(h1.owns_at(m1, p, k));
}

/// Two live payloads in different blocks do not overlap, whatever lies in the
/// blocks.
pub proof fn lemma_payloads_apart(h: &K1kHeap, m: Seq<u8>, p: int, i: int, q: int, j: int)
    requires
        h.wf(m),
        h.owns_at(m, p, i),
        h.owns_at(m, q, j),
        p < q,
        i != j,
    ensures
        h.blocks@[i].end() <= q,
{
    if i < j {
        blocks::lemma_order(h.head as int, m.len() as int, h.blocks@, i, j);
    } else {
        blocks::lemma_order(h.head as int, m.len() as int, h.blocks@, j, i);
    }
}

/// Once everything has been released, and nothing was shrunk in place with a
/// free neighbour, the whole range is one free block again.
pub proof fn lemma_all_released(h: &K1kHeap, m: Seq<u8>)
    requires
        h.wf(m),
        h.head != 0,
        h.live == 0,
        blocks::coalesced(h.blocks@),
    ensures
        h.in_use == 0,
        h.blocks@ == seq![Block { addr: h.head as int, size: m.len() - m.len() % 2, free: true }],
{
    let b = h.blocks@;
    blocks::lemma_all_free(h.head as int, m.len() as int, b);
    assert(b.drop_last() =~= Seq::empty());
    assert(blocks::total(b.drop_last(), true) == 0);
}

/// One thing that happens to a heap.
pub enum HeapEvent {
    /// A request, and its answer.
    Allocate { info: Option<BootInfo>, layout: Layout, answer: Outcome },
    /// The payload at `ptr`, of block `i`, is released.
    Release { ptr: int, i: int },
    /// The payload at `ptr`, of block `i`, is resized.
    Resize { ptr: int, i: int, layout: Layout, new_size: u64, answer: Outcome },
    /// A service writes into its payloads.
    Write,
}

impl HeapEvent {
    /// `h1` with memory `m1` is what the event makes of `h0` with `m0`. A payload
    /// is not shrunk in place beside a free block so far that something is left
    /// over.
    pub open spec fn leads(&self, h0: &K1kHeap, m0: Seq<u8>, h1: &K1kHeap, m1: Seq<u8>) -> bool {
        match *self {
            HeapEvent::Allocate { info, layout, answer } => h1.served(h0, m0, m1, info, layout, answer),
            HeapEvent::Release { ptr, i } => h0.owns_at(m0, ptr, i) && h1.released(h0, m0, m1, i),
            HeapEvent::Resize { ptr, i, layout, new_size, answer } => {
                &&& new_size != 0
                &&& h0.owns_at(m0, ptr, i)
                &&& !h0.leaves_gap(i, h0.room_for(ptr, i, new_size as int))
                &&& h1.reallocated(h0, m0, m1, ptr, i, layout, new_size, answer)
            },
            HeapEvent::Write => *h1 == *h0 && m1.len() == m0.len(),
        }
    }
}

/// What became of a heap, from its first use on: its states, and the events
/// between them.
pub open spec fn history(states: Seq<(K1kHeap, Seq<u8>)>, events: Seq<HeapEvent>) -> bool {
    &&& states.len() == events.len() + 1
    &&& states[0].0.head == 0
    &&& forall|k: int| 0 <= k < states.len() ==> (#[trigger] states[k]).0.wf(states[k].1)
    &&& forall|k: int|
        0 <= k < events.len() ==> (#[trigger] events[k]).leads(
            &states[k].0,
            states[k].1,
            &states[k + 1].0,
            states[k + 1].1,
        )
}

proof fn lemma_kept_merged(states: Seq<(K1kHeap, Seq<u8>)>, events: Seq<HeapEvent>, k: int)
    requires
        history(states, events),
        0 <= k < states.len(),
    ensures
        blocks::coalesced(states[k].0.blocks@),
        states[k].1.len() == states[0].1.len(),
    decreases k,
{
    assert(states[0].0.wf(states[0].1));
    if k > 0 {
        lemma_kept_merged(states, events, k - 1);
        assert(events[k - 1].leads(
            &states[k - 1].0,
            states[k - 1].1,
            &states[k].0,
            states[k].1,
        ));
    }
}

/// The space always comes back, in whatever order payloads are taken, resized and
/// released: free blocks never lie side by side, the counters are the sum and the
/// number of the allocated blocks at every point, and once nothing is live the
/// whole range is one free block, from which any request that fits it is served,
/// one for half of it among them. Left out is a payload cut down beside a free
/// block by enough to make a block of the tail: the two are not joined.
pub proof fn lemma_space_comes_back(states: Seq<(K1kHeap, Seq<u8>)>, events: Seq<HeapEvent>, k: int)
    requires
        history(states, events),
        0 <= k < states.len(),
    ensures
        ({
            let h = states[k].0;
            let len = states[0].1.len() as int;
            &&& blocks::coalesced(h.blocks@)
            &&& h.in_use == blocks::used_bytes(h.blocks@)
            &&& h.live == blocks::used_count(h.blocks@)
            &&& h.live == 0 && h.head != 0 ==> {
                &&& h.in_use == 0
                &&& h.blocks@ == seq![Block { addr: h.head as int, size: len - len % 2, free: true }]
                &&& forall|l: Layout|
                    #![trigger l.need()]
                    l.need() <= len - len % 2 ==> blocks::first_fit(h.blocks@, l.need()) == 0
                &&& forall|l: Layout|
                    #![trigger l.need()]
                    l.align <= ALIGN && l.size <= len / 2 && len >= 128 ==> l.placeable() && l.need() <= len
                        - len % 2
            }
        }),
{
    let h = states[k].0;
    let m = states[k].1;
    let len = states[0].1.len() as int;
    lemma_kept_merged(states, events, k);
    assert(h.wf(m));
    assert(h.in_use == blocks::used_bytes(h.blocks@));
    assert(h.live == blocks::used_count(h.blocks@));
    if h.live == 0 && h.head != 0 {
        lemma_all_released(&h, m);
        lemma_sixteen_pow2();
        assert forall|l: Layout|
            #![trigger l.need()]
            l.need() <= len - len % 2 implies blocks::first_fit(h.blocks@, l.need()) == 0 by {
            assert(h.blocks@[0].free && h.blocks@[0].size >= l.need());
        }
        assert forall|l: Layout|
            #![trigger l.need()]
            l.align <= ALIGN && l.size <= len / 2 && len >= 128 implies l.placeable() && l.need() <= len - len
            % 2 by {
            assert(l.payload_align() == 16);
        }
    }
}

/// In a heap whose size is a multiple of the payload alignment, so is the size
/// of every block.
pub proof fn lemma_block_sizes(h: &K1kHeap, m: Seq<u8>, i: int)
    requires
        h.wf(m),
        h.head != 0,
        m.len() % 16 == 0,
        0 <= i < h.blocks@.len(),
    ensures
        h.blocks@[i].size % 16 == 0,
{
    let b = h.blocks@;
    blocks::lemma_tile(h.head as int, m.len() as int, b, i);
    if i + 1 < b.len() {
        blocks::lemma_order(h.head as int, m.len() as int, b, i, i + 1);
        blocks::lemma_tile(h.head as int, m.len() as int, b, i + 1);
    } else {
        reveal(blocks::tiles);
    }
}

/// A live payload belongs to exactly one block.
pub proof fn lemma_one_owner(h: &K1kHeap, m: Seq<u8>, p: int, i: int, j: int)
    requires
        h.wf(m),
        h.owns_at(m, p, i),
        h.owns_at(m, p, j),
    ensures
        i == j,
{
    if i < j {
        blocks::lemma_order(h.head as int, m.len() as int, h.blocks@, i, j);
    } else if j < i {
        blocks::lemma_order(h.head as int, m.len() as int, h.blocks@, j, i);
    }
}

/// A service may write anything into a payload it owns: the heap stays well
/// formed, the payload stays its own, and no other live payload changes or is
/// lost.
pub proof fn lemma_own_write(h: &K1kHeap, m1: Seq<u8>, m2: Seq<u8>, p: int, i: int)
    requires
        h.wf(m1),
        h.owns_at(m1, p, i),
        m2.len() == m1.len(),
        forall|k: int|
            0 <= k < m1.len() && !(p <= h.head + k < h.blocks@[i].end()) ==> m2[k] == #[trigger] m1[k],
    ensures
        h.wf(m2),
        h.owns_at(m2, p, i),
        blocks::payloads_kept(m1, m2, h.head as int, h.blocks@, i),
        forall|q: int, j: int|
            #![trigger h.owns_at(m1, q, j)]
            h.owns_at(m1, q, j) && j != i ==> h.owns_at(m2, q, j),
{
    let base = h.head as int;
    let b = h.blocks@;
    let len = m1.len() as int;
    blocks::lemma_tile(base, len, b, i);
    assert forall|k: int| 0 <= k < m1.len() && m2[k] != #[trigger] m1[k] implies b[i].addr + 24 <= base + k
        < b[i].end() by {}
    blocks::lemma_payload_write(m1, m2, base, b, i);
    blocks::lemma_word_kept(m2, m1, base, p - BACK);
    assert forall|j: int, a: int|
        #![trigger b[j], m2[a]]
        0 <= j < b.len() && j != i && !b[j].free && b[j].addr + 24 <= base + a < b[j].end() && 0 <= a
            < m1.len() implies m2[a] == m1[a] by {
        if j < i {
            blocks::lemma_order(base, len, b, j, i);
        } else {
            blocks::lemma_order(base, len, b, i, j);
        }
        assert(m1[a] == m1[a]);
    }
    assert forall|q: int, j: int|
        #![trigger h.owns_at(m1, q, j)]
        h.owns_at(m1, q, j) && j != i implies h.owns_at(m2, q, j) by {
        blocks::lemma_tile(base, len, b, j);
        assert forall|k: int| q - BACK <= base + k < q - BACK + 8 implies m2[k] == m1[k] by {
            assert(b[j].addr + 24 <= base + k < b[j].end());
        }
        blocks::lemma_word_kept(m2, m1, base, q - BACK);
    }
}

/// Writing into a block that was just cut from a free one keeps every payload
/// that was live before.
proof fn lemma_fresh_write(
    h0: &K1kHeap,
    h1: &K1kHeap,
    m0: Seq<u8>,
    m1: Seq<u8>,
    m2: Seq<u8>,
    b: Seq<Block>,
    i: int,
    need: int,
)
    requires
        h0.wf(m0),
        h0.head != 0 ==> b == h0.blocks@ && h1.head == h0.head,
        h0.head == 0 ==> forall|j: int| 0 <= j < b.len() ==> #[trigger] b[j].free,
        0 <= i < b.len(),
        b[i].free,
        h1.blocks@ == blocks::cut(b, i, need),
        m1.len() == m0.len(),
        m2.len() == m1.len(),
        blocks::payloads_kept(m0, m1, h1.head as int, b, -1),
        forall|k: int|
            0 <= k < m1.len() && !(h1.blocks@[i].addr <= h1.head + k < h1.blocks@[i].end()) ==> m2[k]
                == #[trigger] m1[k],
    ensures
        blocks::payloads_kept(m0, m2, h1.head as int, b, -1),
        forall|p: int| h0.owns(m0, p) ==> #[trigger] h1.owns(m2, p),
{
    let base = h1.head as int;
    let c = h1.blocks@;
    assert(c[i].addr == b[i].addr && c[i].size <= b[i].size);
    assert forall|j: int, a: int|
        #![trigger b[j], m2[a]]
        0 <= j < b.len() && j != -1 && !b[j].free && b[j].addr + 24 <= base + a < b[j].end() && 0 <= a
            < m0.len() implies m2[a] == m0[a] by {
        assert(h0.head != 0);
        if j < i {
            blocks::lemma_order(base, m0.len() as int, b, j, i);
        } else if j > i {
            blocks::lemma_order(base, m0.len() as int, b, i, j);
        }
        assert(m1[a] == m0[a]);
    }
    assert forall|p: int| h0.owns(m0, p) implies #[trigger] h1.owns(m2, p) by {
        let j = choose|j: int| h0.owns_at(m0, p, j);
        blocks::lemma_cut_keeps(b, i, need, j);
        lemma_owns_kept(h0, h1, m0, m2, p, j, -1);
    }
}

/// Cutting block `i` of a list in which only block `i` changed keeps what every
/// other payload holds, and the payload of block `i` as far as it reaches.
proof fn lemma_cut_in_place(
    h0: &K1kHeap,
    h1: &K1kHeap,
    m0: Seq<u8>,
    m1: Seq<u8>,
    p: int,
    i: int,
    g: Seq<Block>,
    keep: int,
)
    requires
        h0.wf(m0),
        h0.owns_at(m0, p, i),
        h1.head == h0.head,
        m1.len() == m0.len(),
        g == h0.blocks@ || (i + 1 < h0.blocks@.len() && h0.blocks@[i + 1].free && g == blocks::join(
            h0.blocks@,
            i,
        )),
        h1.blocks@ == blocks::cut(g, i, keep),
        p - h0.blocks@[i].addr < keep <= g[i].size,
        forall|k: int|
            0 <= k < m0.len() && m1[k] != #[trigger] m0[k] ==> {
                let a = h0.head + k;
                ||| h0.blocks@[i].addr <= a < h0.blocks@[i].addr + 24
                ||| h0.blocks@[i].addr + keep <= a < g[i].end() + 24
            },
    ensures
        h1.owns_at(m1, p, i),
        blocks::payloads_kept(m0, m1, h0.head as int, h0.blocks@, i),
        forall|q: int, j: int|
            #![trigger h0.owns_at(m0, q, j)]
            h0.owns_at(m0, q, j) && j != i ==> h1.owns(m1, q),
{
    let base = h0.head as int;
    let b = h0.blocks@;
    let len = m0.len() as int;
    let c = h1.blocks@;
    blocks::lemma_tile(base, len, b, i);
    assert(c[i].addr == b[i].addr && !c[i].free && keep <= c[i].size);
    if i + 1 < b.len() {
        blocks::lemma_order(base, len, b, i, i + 1);
        blocks::lemma_tile(base, len, b, i + 1);
    }
    assert(p >= b[i].addr + HEADER);
    assert(p - BACK + 8 <= b[i].addr + keep);
    blocks::lemma_word_kept(m1, m0, base, p - BACK);
    assert forall|j: int, a: int|
        #![trigger b[j], m1[a]]
        0 <= j < b.len() && j != i && !b[j].free && b[j].addr + 24 <= base + a < b[j].end() && 0 <= a
            < m0.len() implies m1[a] == m0[a] by {
        if j < i {
            blocks::lemma_order(base, len, b, j, i);
        } else {
            blocks::lemma_order(base, len, b, i, j);
            if g != b {
                blocks::lemma_order(base, len, b, i + 1, j);
            }
        }
        assert(m0[a] == m0[a]);
    }
    assert forall|q: int, j: int|
        #![trigger h0.owns_at(m0, q, j)]
        h0.owns_at(m0, q, j) && j != i implies h1.owns(m1, q) by {
        if g == b {
            blocks::lemma_cut_keeps(b, i, keep, j);
        } else {
            blocks::lemma_join_keeps(b, i, j);
            let t = choose|t: int| 0 <= t < g.len() && g[t] == b[j];
            if j < i {
                assert(g[j] == b[j]);
                blocks::lemma_cut_keeps(g, i, keep, j);
            } else {
                assert(g[j - 1] == b[j]);
                blocks::lemma_cut_keeps(g, i, keep, j - 1);
            }
        }
        lemma_owns_kept(h0, h1, m0, m1, q, j, i);
    }
}

/// Setting a block's free flag in memory sets it in the list.
proof fn lemma_released(m1: Seq<u8>, m2: Seq<u8>, base: int, b: Seq<Block>, k: int)
    requires
        blocks::list_ok(m1, base, b),
        0 <= k < b.len(),
        m1.len() == m2.len(),
        blocks::word(m2, base, b[k].addr) == b[k].size + 1,
        forall|a: int|
            base <= a && a + 8 <= base + m1.len() && (a + 8 <= b[k].addr || b[k].addr + 8 <= a)
                ==> #[trigger] blocks::word(m2, base, a) == blocks::word(m1, base, a),
    ensures
        blocks::list_ok(m2, base, blocks::freed(b, k)),
{
    let u = blocks::freed(b, k);
    blocks::lemma_freed(base, m1.len() as int, b, k);
    blocks::lemma_tile(base, m1.len() as int, b, k);
    assert forall|j: int| 0 <= j < u.len() implies #[trigger] blocks::header_ok(m2, base, u, j) by {
        assert(blocks::header_ok(m1, base, b, j));
        blocks::lemma_tile(base, m1.len() as int, b, j);
        if j < k {
            blocks::lemma_order(base, m1.len() as int, b, j, k);
        } else if k < j {
            blocks::lemma_order(base, m1.len() as int, b, k, j);
        }
    }
}

/// Clearing a block's free flag in memory clears it in the list.
proof fn lemma_claimed(m1: Seq<u8>, m2: Seq<u8>, base: int, b: Seq<Block>, k: int)
    requires
        blocks::list_ok(m1, base, b),
        0 <= k < b.len(),
        b[k].free,
        m1.len() == m2.len(),
        blocks::word(m2, base, b[k].addr) == b[k].size,
        forall|a: int|
            base <= a && a + 8 <= base + m1.len() && (a + 8 <= b[k].addr || b[k].addr + 8 <= a)
                ==> #[trigger] blocks::word(m2, base, a) == blocks::word(m1, base, a),
    ensures
        blocks::list_ok(
            m2,
            base,
            b.update(k, Block { addr: b[k].addr, size: b[k].size, free: false }),
        ),
{
    let u = b.update(k, Block { addr: b[k].addr, size: b[k].size, free: false });
    blocks::lemma_tile(base, m1.len() as int, b, k);
    assert(blocks::tiles(base, m1.len() as int, u)) by {
        reveal(blocks::tiles);
        assert forall|p: int, q: int|
            #![trigger u[p], u[q]]
            0 <= p < q < u.len() implies u[p].end() <= u[q].addr by {
            assert(b[p].end() <= b[q].addr);
        }
        assert forall|p: int, q: int|
            #![trigger u[p], u[q]]
            0 <= p < u.len() && q == p + 1 && q < u.len() implies u[p].end() == u[q].addr by {
            assert(b[p].end() == b[q].addr);
        }
    }
    assert forall|j: int| 0 <= j < u.len() implies #[trigger] blocks::header_ok(m2, base, u, j) by {
        assert(blocks::header_ok(m1, base, b, j));
        blocks::lemma_tile(base, m1.len() as int, b, j);
        if j < k {
            blocks::lemma_order(base, m1.len() as int, b, j, k);
        } else if k < j {
            blocks::lemma_order(base, m1.len() as int, b, k, j);
        }
    }
}

/// A heap that was never set up has no allocated blocks.
proof fn lemma_ready_free(h: &K1kHeap, info: Option<BootInfo>, mem: Seq<u8>)
    requires
        h.wf(mem),
    ensures
        h.head == 0 ==> forall|j: int|
            0 <= j < h.ready_blocks(info).len() ==> #[trigger] h.ready_blocks(info)[j].free,
        h.head == 0 ==> blocks::used_bytes(h.ready_blocks(info)) == 0,
        h.head == 0 ==> blocks::used_count(h.ready_blocks(info)) == 0,
{
    let b = h.ready_blocks(info);
    if h.head == 0 && b.len() > 0 {
        assert(b.drop_last() =~= Seq::empty());
        assert(blocks::total(b.drop_last(), true) == 0);
        assert(blocks::total(b.drop_last(), false) == 0);
    }
}

/// A request that can be placed is served if and only if a free block is large
/// enough for it with its header and its alignment, and then from the first such
/// block. The payload has the alignment asked for, sixteen at least, and as many
/// bytes as were asked for, all of them in that block and behind its header; the
/// counters go by that block.
pub proof fn lemma_served(
    h0: &K1kHeap,
    h1: &K1kHeap,
    m0: Seq<u8>,
    m1: Seq<u8>,
    info: Option<BootInfo>,
    l: Layout,
    r: Outcome,
    k: int,
)
    requires
        h0.head != 0,
        l.size >= 1,
        l.align >= 1,
        vstd::arithmetic::power2::is_pow2(l.align as int),
        h1.served(h0, m0, m1, info, l, r),
        0 <= k < h0.blocks@.len(),
        forall|j: int| 0 <= j < k ==> !((#[trigger] h0.blocks@[j]).free && h0.blocks@[j].size >= l.need()),
    ensures
        ({
            let b = h0.blocks@[k];
            &&& l.need() >= l.size + 32
            &&& l.need() < l.size + 32 + 16 + (if l.align < 16 {
                16int
            } else {
                l.align as int
            })
            &&& l.need() % 16 == 0
            &&& b.free && b.size >= l.need() ==> {
                let c = h1.blocks@[k];
                &&& r.ptr % l.align == 0
                &&& r.ptr % 16 == 0
                &&& b.addr + 32 <= r.ptr
                &&& r.ptr + l.size <= c.addr + c.size
                &&& c.addr == b.addr
                &&& !c.free
                &&& c.size <= b.size
                &&& c.size >= l.need()
                &&& h1.in_use == h0.in_use + c.size
                &&& h1.live == h0.live + 1
                &&& h1.allocs == h0.allocs + 1
                &&& h1.failures == h0.failures
                &&& h1.peak >= h1.in_use
            }
            &&& k == h0.blocks@.len() - 1 && !(b.free && b.size >= l.need()) ==> {
                &&& r.ptr == 0
                &&& h1.in_use == h0.in_use
                &&& h1.live == h0.live
                &&& h1.failures == h0.failures + 1
                &&& h1.blocks@ == h0.blocks@
            }
        }),
{
    let bs = h0.blocks@;
    blocks::lemma_fit_from(bs, l.need(), 0);
    let a = l.payload_align();
    lemma_sixteen_pow2();
    lemma_sixteen_divides(a);
    if l.align < 16 {
        lemma_small_divides(l.align as int);
    }
    align::lemma_rounded(l.payload_size() + HEADER + (a - 1), 16);
    let b = bs[k];
    if b.free && b.size >= l.need() {
        assert(blocks::first_fit(bs, l.need()) == k);
        let ptr = r.ptr as int;
        if l.align < 16 {
            assert(a == 16);
            lemma_divides(ptr, 16, l.align as int);
        } else {
            lemma_divides(ptr, a, 16);
        }
    } else if k == bs.len() - 1 {
        assert(blocks::first_fit(bs, l.need()) == bs.len());
    }
}

proof fn lemma_sixteen_divides(n: int)
    requires
        vstd::arithmetic::power2::is_pow2(n),
        n >= 16,
    ensures
        n % 16 == 0,
{
    reveal_with_fuel(vstd::arithmetic::power2::is_pow2, 6);
    assert(n % 2 == 0 && n / 2 % 2 == 0 && n / 2 / 2 % 2 == 0 && n / 2 / 2 / 2 % 2 == 0);
}

proof fn lemma_small_divides(n: int)
    requires
        vstd::arithmetic::power2::is_pow2(n),
        n < 16,
    ensures
        n > 0,
        16int % n == 0,
{
    reveal_with_fuel(vstd::arithmetic::power2::is_pow2, 6);
    assert(n == 1 || n == 2 || n == 4 || n == 8);
    assert(16int % 1 == 0 && 16int % 2 == 0 && 16int % 4 == 0 && 16int % 8 == 0);
}

proof fn lemma_divides(p: int, a: int, d: int)
    requires
        a > 0,
        d > 0,
        p % a == 0,
        a % d == 0,
    ensures
        p % d == 0,
{
    vstd::arithmetic::div_mod::lemma_fundamental_div_mod(p, a);
    vstd::arithmetic::div_mod::lemma_fundamental_div_mod(a, d);
    let x = p / a;
    let y = a / d;
    assert(p == (x * y) * d) by (nonlinear_arith)
        requires
            p == a * x,
            a == d * y,
    ;
    vstd::arithmetic::div_mod::lemma_mod_multiples_basic(x * y, d);
}

/// A payload that is resized keeps its bytes, as many as both sizes have, and has
/// room for the new size in its block. It stays where it is if its block, or its
/// block and a free one behind it, is large enough; it is lost in no case.
pub proof fn lemma_resized(
    h0: &K1kHeap,
    h1: &K1kHeap,
    m0: Seq<u8>,
    m1: Seq<u8>,
    p: int,
    i: int,
    l: Layout,
    new_size: u64,
    r: Outcome,
    d: int,
)
    requires
        h0.wf(m0),
        h0.owns_at(m0, p, i),
        new_size >= 1,
        l.align >= 1,
        vstd::arithmetic::power2::is_pow2(l.align as int),
        h1.reallocated(h0, m0, m1, p, i, l, new_size, r),
    ensures
        ({
            let b = h0.blocks@;
            let here = p + new_size <= b[i].addr + b[i].size - 16;
            let behind = i + 1 < b.len() && b[i + 1].free && p + new_size <= b[i + 1].addr + b[i + 1].size - 16;
            &&& here || behind ==> r.ptr == p
            &&& r.ptr == p ==> p + new_size <= h1.blocks@[i].addr + h1.blocks@[i].size && h1.live == h0.live
            &&& r.ptr != 0 ==> h1.live == h0.live && h1.owns(m1, r.ptr as int)
            &&& r.ptr == 0 ==> h1.blocks@ == b && h1.live == h0.live && h1.in_use == h0.in_use && h1.owns(m1, p)
            &&& r.ptr != 0 && 0 <= d < l.size && d < new_size ==> m1[r.ptr - h0.head + d] == m0[p - h0.head + d]
        }),
{
    let b = h0.blocks@;
    let base = h0.head as int;
    let len = m0.len() as int;
    blocks::lemma_tile(base, len, b, i);
    let want = Layout { size: new_size, align: l.align };
    lemma_sixteen_pow2();
    assert(want.placeable());
    let need = h0.room_for(p, i, new_size as int);
    align::lemma_rounded(p - b[i].addr + new_size, 16);
    if i + 1 < b.len() {
        blocks::lemma_order(base, len, b, i, i + 1);
        blocks::lemma_tile(base, len, b, i + 1);
    }
    if r.ptr == 0 {
        assert(h0.owns(m0, p));
    }
    blocks::lemma_fit_from(b, want.need(), 0);
    if need > b[i].size && !h0.can_absorb(i, need) {
        let k = blocks::first_fit(b, want.need());
        if k < b.len() {
            blocks::lemma_tile(base, len, b, k);
            align::lemma_rounded(b[k].addr + HEADER, want.payload_align());
            if k < i {
                blocks::lemma_order(base, len, b, k, i);
            } else {
                blocks::lemma_order(base, len, b, i, k);
            }
            assert(r.ptr != p);
        }
    }
}

/// A heap that was not used yet is one free block, all of the memory it was given
/// but for an odd byte, if that is 48 bytes or more from a multiple of 16 on. In
/// any other case there is nothing to allocate.
pub proof fn lemma_fresh_heap(h: &K1kHeap, info: Option<BootInfo>)
    requires
        h.head == 0,
    ensures
        ({
            let b = h.ready_blocks(info);
            &&& b.len() <= 1
            &&& b.len() == 1 <==> (info matches Some(i) && i.heap_size >= 48 && i.heap_base % 16 == 0)
            &&& b.len() == 1 ==> {
                let i = info->0;
                &&& b[0].free && b[0].addr == i.heap_base
                &&& i.heap_size - 1 <= b[0].size <= i.heap_size && b[0].size % 2 == 0
            }
        }),
{
}

/// A block given back is no longer counted, whatever becomes of its neighbours,
/// and the highest use so far stays as it was.
pub proof fn lemma_given_back(h0: &K1kHeap, h1: &K1kHeap, m0: Seq<u8>, m1: Seq<u8>, i: int)
    requires
        h1.released(h0, m0, m1, i),
    ensures
        h0.in_use - h1.in_use == h0.blocks@[i].size,
        h0.live - h1.live == 1,
        h1.frees - h0.frees == 1,
        h1.peak == h0.peak,
        h1.allocs == h0.allocs,
        h1.failures == h0.failures,
{
}

/// A request that is refused is counted and changes no other counter. The first
/// three say so.
pub proof fn lemma_refusal_counted(h0: &K1kHeap, h1: &K1kHeap, b: Seq<Block>, layout: Layout, r: Outcome)
    requires
        h1.refused(h0, b, layout, r),
    ensures
        r.ptr == 0,
        h1.failures - h0.failures == 1,
        h1.in_use == h0.in_use && h1.peak == h0.peak && h1.live == h0.live,
        h1.allocs == h0.allocs && h1.frees == h0.frees,
        r.report is Some <==> h0.failures < 3,
{
}

} // verus!
