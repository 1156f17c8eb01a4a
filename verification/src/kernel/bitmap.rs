//! A bitmap of physical frames: one bit per 4 KiB frame, set while the frame is
//! in use. The words of the map live wherever the caller keeps them.
use vstd::prelude::*;
use vstd::std_specs::bits::*;

verus! {

/// Frames of the largest physical address space.
pub const MAX_FRAMES: u64 = 0x100_0000_0000;

/// Bit `j` of a word.
pub open spec fn bit(w: u64, j: int) -> bool {
    (w >> (j as u64)) & 1 == 1
}

/// Whether frame `i` is marked in use.
pub open spec fn used(bits: Seq<u64>, i: int) -> bool {
    bit(bits[i / 64], i % 64)
}

/// Free frames among the first `n`.
pub open spec fn count_free(bits: Seq<u64>, n: int) -> int
    decreases n,
{
    if n <= 0 {
        0
    } else {
        count_free(bits, n - 1) + if used(bits, n - 1) {
            0int
        } else {
            1
        }
    }
}

/// `count` adjacent free frames start at `s`.
pub open spec fn run_at(bits: Seq<u64>, frames: int, s: int, count: int) -> bool {
    &&& 0 <= s
    &&& s + count <= frames
    &&& forall|j: int| s <= j < s + count ==> !#[trigger] used(bits, j)
}

/// The map `b1` is `b0` with the frames from `lo` up to `hi` marked in use.
pub open spec fn marked(b0: Seq<u64>, b1: Seq<u64>, lo: int, hi: int) -> bool {
    &&& b1.len() == b0.len()
    &&& forall|j: int|
        0 <= j < b0.len() * 64 ==> #[trigger] used(b1, j) == (used(b0, j) || lo <= j < hi)
}

/// The frame allocator's counters; the map itself is passed to every operation.
pub struct Bitmap {
    pub frames: usize,
    pub free: usize,
    pub total_usable: usize,
    pub next_hint: usize,
}

proof fn lemma_set(w: u64, k: u64)
    requires
        k < 64,
    ensures
        forall|j: int| 0 <= j < 64 ==> #[trigger] bit(w | (1u64 << k), j) == (j == k || bit(w, j)),
{
    assert forall|j: int| 0 <= j < 64 implies #[trigger] bit(w | (1u64 << k), j) == (j == k || bit(
        w,
        j,
    )) by {
        let i = j as u64;
        assert(((w | (1u64 << k)) >> i) & 1 == 1 <==> (i == k || (w >> i) & 1 == 1)) by (bit_vector)
            requires
                k < 64,
                i < 64,
        ;
    }
}

proof fn lemma_clear(w: u64, k: u64)
    requires
        k < 64,
    ensures
        forall|j: int| 0 <= j < 64 ==> #[trigger] bit(w & !(1u64 << k), j) == (j != k && bit(w, j)),
{
    assert forall|j: int| 0 <= j < 64 implies #[trigger] bit(w & !(1u64 << k), j) == (j != k && bit(
        w,
        j,
    )) by {
        let i = j as u64;
        assert(((w & !(1u64 << k)) >> i) & 1 == 1 <==> (i != k && (w >> i) & 1 == 1)) by (bit_vector)
            requires
                k < 64,
                i < 64,
        ;
    }
}

proof fn lemma_not(w: u64)
    ensures
        forall|j: int| 0 <= j < 64 ==> #[trigger] bit(!w, j) == !bit(w, j),
{
    assert forall|j: int| 0 <= j < 64 implies #[trigger] bit(!w, j) == !bit(w, j) by {
        let i = j as u64;
        assert(((!w) >> i) & 1 == 1 <==> !((w >> i) & 1 == 1)) by (bit_vector)
            requires
                i < 64,
        ;
    }
}

pub proof fn lemma_full(w: u64)
    ensures
        w == u64::MAX <==> forall|j: int| 0 <= j < 64 ==> #[trigger] bit(w, j),
{
    lemma_not(w);
    let v = !w;
    axiom_u64_trailing_zeros(v);
    let t = u64_trailing_zeros(v);
    assert(w == u64::MAX <==> v == 0) by (bit_vector)
        requires
            v == !w,
    ;
    if v != 0 {
        assert(bit(v, t as int));
        assert(!bit(w, t as int));
    } else {
        assert forall|j: int| 0 <= j < 64 implies #[trigger] bit(w, j) by {
            assert(bit(!w, j) == !bit(w, j));
            let i = j as u64;
            assert((0u64 >> i) & 1 == 0) by (bit_vector);
        }
    }
}

/// The lowest set bit of a word, and the word without it.
proof fn lemma_lowest(v: u64)
    requires
        v != 0,
    ensures
        u64_trailing_zeros(v) < 64,
        bit(v, u64_trailing_zeros(v) as int),
        forall|j: int| 0 <= j < u64_trailing_zeros(v) ==> !#[trigger] bit(v, j),
        forall|j: int|
            0 <= j < 64 ==> #[trigger] bit(v & ((v - 1) as u64), j) == (bit(v, j) && j
                != u64_trailing_zeros(v)),
{
    axiom_u64_trailing_zeros(v);
    let t = u64_trailing_zeros(v) as u64;
    assert forall|j: int| 0 <= j < t implies !#[trigger] bit(v, j) by {
        assert((v >> (j as u64)) & 1u64 == 0u64);
    }
    assert forall|j: int| 0 <= j < 64 implies #[trigger] bit(v & ((v - 1) as u64), j) == (bit(v, j) && j
        != t) by {
        let i = j as u64;
        let s = (64 - t) as u64;
        assert(v << s == 0);
        assert(((v & ((v - 1) as u64)) >> i) & 1 == 1 <==> ((v >> i) & 1 == 1 && i != t)) by (bit_vector)
            requires
                v != 0,
                t < 64,
                i < 64,
                s == (64 - t) as u64,
                v << s == 0,
                (v >> t) & 1 == 1,
        ;
    }
}

/// Marking a free frame takes one off the count; releasing one adds it.
proof fn lemma_count_change(b0: Seq<u64>, b1: Seq<u64>, i: int, n: int)
    requires
        forall|j: int| 0 <= j < n && j != i ==> #[trigger] used(b1, j) == used(b0, j),
        0 <= i,
    ensures
        count_free(b1, n) == count_free(b0, n) + if i < n {
            (if used(b1, i) {
                0int
            } else {
                1
            }) - (if used(b0, i) {
                0int
            } else {
                1
            })
        } else {
            0
        },
    decreases n,
{
    if n > 0 {
        lemma_count_change(b0, b1, i, n - 1);
        if n - 1 != i {
            assert(used(b1, n - 1) == used(b0, n - 1));
        }
    }
}

pub proof fn lemma_count_bounds(b: Seq<u64>, n: int)
    requires
        0 <= n,
    ensures
        0 <= count_free(b, n) <= n,
    decreases n,
{
    if n > 0 {
        lemma_count_bounds(b, n - 1);
    }
}

/// A free frame is counted.
proof fn lemma_count_pos(b: Seq<u64>, n: int, i: int)
    requires
        0 <= i < n,
        !used(b, i),
    ensures
        count_free(b, n) >= 1,
    decreases n,
{
    lemma_count_bounds(b, n - 1);
    if i < n - 1 {
        lemma_count_pos(b, n - 1, i);
    }
}

/// Maps that agree count alike.
pub proof fn lemma_count_same(b0: Seq<u64>, b1: Seq<u64>, n: int)
    requires
        forall|j: int| 0 <= j < n ==> #[trigger] used(b1, j) == used(b0, j),
    ensures
        count_free(b1, n) == count_free(b0, n),
    decreases n,
{
    if n > 0 {
        lemma_count_same(b0, b1, n - 1);
        assert(used(b1, n - 1) == used(b0, n - 1));
    }
}

/// Marking frames from `lo` up to `hi`, all free before, takes their number
/// off the count.
proof fn lemma_count_marked(b0: Seq<u64>, b1: Seq<u64>, lo: int, hi: int, n: int)
    requires
        0 <= lo <= hi,
        forall|j: int| 0 <= j < n ==> #[trigger] used(b1, j) == (used(b0, j) || lo <= j < hi),
        forall|j: int| lo <= j < hi ==> !#[trigger] used(b0, j),
    ensures
        count_free(b1, n) == count_free(b0, n) - (if n <= lo {
            0
        } else if n <= hi {
            n - lo
        } else {
            hi - lo
        }),
    decreases n,
{
    if n > 0 {
        lemma_count_marked(b0, b1, lo, hi, n - 1);
        assert(used(b1, n - 1) == (used(b0, n - 1) || lo <= n - 1 < hi));
        if lo <= n - 1 < hi {
            assert(!used(b0, n - 1));
        }
    }
}

pub fn is_used(bits: &[u64], i: usize) -> (r: bool)
    requires
        i < bits@.len() * 64,
    ensures
        r == used(bits@, i as int),
{
    let w: u64 = bits[i / 64];
    let k: u64 = (i % 64) as u64;
    assert((w & (1u64 << k)) != 0 <==> (w >> k) & 1 == 1) by (bit_vector)
        requires
            k < 64,
    ;
    w & (1u64 << k) != 0
}

pub fn set_used(bits: &mut [u64], i: usize)
    requires
        i < old(bits)@.len() * 64,
    ensures
        marked(old(bits)@, final(bits)@, i as int, i + 1),
{
    let w: u64 = bits[i / 64];
    let k: u64 = (i % 64) as u64;
    bits[i / 64] = w | (1u64 << k);
    proof {
        lemma_set(w, k);
        assert forall|j: int| 0 <= j < old(bits)@.len() * 64 implies #[trigger] used(bits@, j) == (used(
            old(bits)@,
            j,
        ) || i <= j < i + 1) by {
            assert(bit(w | (1u64 << k), j % 64) == (j % 64 == k || bit(w, j % 64)));
        }
    }
}

pub fn set_free(bits: &mut [u64], i: usize)
    requires
        i < old(bits)@.len() * 64,
    ensures
        final(bits)@.len() == old(bits)@.len(),
        forall|j: int|
            0 <= j < old(bits)@.len() * 64 ==> #[trigger] used(final(bits)@, j) == (j != i && used(
                old(bits)@,
                j,
            )),
{
    let w: u64 = bits[i / 64];
    let k: u64 = (i % 64) as u64;
    bits[i / 64] = w & !(1u64 << k);
    proof {
        lemma_clear(w, k);
        assert forall|j: int| 0 <= j < old(bits)@.len() * 64 implies #[trigger] used(bits@, j) == (j != i
            && used(old(bits)@, j)) by {
            assert(bit(w & !(1u64 << k), j % 64) == (j % 64 != k && bit(w, j % 64)));
        }
    }
}

impl Bitmap {
    /// The map covers the frames, nothing past them is free, and `free` counts
    /// the free ones.
    pub open spec fn wf(&self, bits: Seq<u64>) -> bool {
        &&& bits.len() * 64 <= usize::MAX
        &&& self.frames <= bits.len() * 64
        &&& self.frames <= MAX_FRAMES
        &&& self.next_hint <= bits.len() * 64
        &&& forall|i: int| self.frames <= i < bits.len() * 64 ==> #[trigger] used(bits, i)
        &&& self.free == count_free(bits, self.frames as int)
    }

    /// Frame `i` is the first free one, searching from the word of `next_hint`
    /// to the end of the map and then from its start.
    pub open spec fn is_next(&self, bits: Seq<u64>, i: int) -> bool {
        let s = self.next_hint as int / 64 * 64;
        &&& 0 <= i < self.frames
        &&& !used(bits, i)
        &&& s <= i ==> forall|j: int| s <= j < i ==> #[trigger] used(bits, j)
        &&& i < s ==> (forall|j: int| s <= j < self.frames ==> #[trigger] used(bits, j)) && (forall|j: int|
            0 <= j < i ==> #[trigger] used(bits, j))
    }

    /// Take a free frame.
    pub fn take(&mut self, bits: &mut [u64]) -> (r: Option<usize>)
        requires
            old(self).wf(old(bits)@),
        ensures
            final(self).wf(final(bits)@),
            final(self).frames == old(self).frames,
            final(self).total_usable == old(self).total_usable,
            r is None ==> *final(self) == *old(self) && final(bits)@ == old(bits)@ && forall|i: int|
                0 <= i < old(self).frames ==> #[trigger] used(old(bits)@, i),
            r matches Some(i) ==> {
                &&& old(self).is_next(old(bits)@, i as int)
                &&& marked(old(bits)@, final(bits)@, i as int, i + 1)
                &&& final(self).free == old(self).free - 1
                &&& final(self).next_hint == i + 1
            },
    {
        let words: usize = bits.len();
        let start: usize = self.next_hint / 64;
        let ghost b0 = bits@;
        let mut step: usize = 0;
        let mut w: usize = if start < words {
            start
        } else {
            0
        };
        let ghost first = w as int;
        while step < words
            invariant
                *self == *old(self),
                self.wf(b0),
                bits@ == b0,
                b0 == old(bits)@,
                words == b0.len(),
                step <= words,
                start == self.next_hint / 64,
                first == if start < words {
                    start as int
                } else {
                    0
                },
                step < words ==> w < words,
                w == if first + step < words {
                    first + step
                } else {
                    first + step - words
                } || step == words,
                forall|j: int|
                    first * 64 <= j < b0.len() * 64 && j < (first + step) * 64 ==> #[trigger] used(b0, j),
                forall|j: int| 0 <= j < (first + step - words) * 64 ==> #[trigger] used(b0, j),
            decreases words - step,
        {
            let word: u64 = bits[w];
            proof {
                lemma_full(word);
                lemma_not(word);
            }
            if word != u64::MAX {
                let v: u64 = !word;
                assert(v != 0) by (bit_vector)
                    requires
                        v == !word,
                        word != u64::MAX,
                ;
                proof {
                    lemma_lowest(v);
                }
                let bit_no: usize = v.trailing_zeros() as usize;
                let idx: usize = w * 64 + bit_no;
                proof {
                    assert(bit(!word, bit_no as int));
                    assert(idx / 64 == w && idx % 64 == bit_no);
                    assert(!used(b0, idx as int));
                    assert(idx < self.frames);
                    assert forall|j: int| w * 64 <= j < idx implies #[trigger] used(b0, j) by {
                        assert(!bit(v, j % 64));
                        assert(bit(!word, j % 64) == !bit(word, j % 64));
                    }
                }
                set_used(bits, idx);
                proof {
                    lemma_count_change(b0, bits@, idx as int, self.frames as int);
                    lemma_count_pos(b0, self.frames as int, idx as int);
                    assert forall|i: int| self.frames <= i < bits@.len() * 64 implies #[trigger] used(
                        bits@,
                        i,
                    ) by {
                        assert(used(b0, i));
                    }
                    lemma_is_next(self, b0, idx as int, first, step as int, w as int);
                }
                self.free = self.free - 1;
                self.next_hint = idx + 1;
                return Some(idx);
            }
            proof {
                assert forall|j: int| w * 64 <= j < w * 64 + 64 implies #[trigger] used(b0, j) by {
                    assert(bit(word, j % 64));
                }
            }
            step = step + 1;
            w = if w + 1 < words {
                w + 1
            } else {
                0
            };
        }
        proof {
            assert forall|i: int| 0 <= i < self.frames implies #[trigger] used(b0, i) by {
                if i < first * 64 {
                    assert(i < (first + words - words) * 64);
                }
            }
        }
        None
    }

    /// Take `count` adjacent free frames, the lowest there are, found a word at
    /// a time: a fully used word is skipped in one step, so a large map costs
    /// `frames / 64` iterations rather than `frames`. Returns the first.
    pub fn alloc_contiguous(&mut self, bits: &mut [u64], count: usize) -> (r: Option<usize>)
        requires
            old(self).wf(old(bits)@),
        ensures
            final(self).wf(final(bits)@),
            final(self).frames == old(self).frames,
            final(self).total_usable == old(self).total_usable,
            final(self).next_hint == old(self).next_hint,
            r is None ==> *final(self) == *old(self) && final(bits)@ == old(bits)@ && (count == 0 || forall|
                s: int,
            |
                !#[trigger] run_at(old(bits)@, old(self).frames as int, s, count as int)),
            r matches Some(i) ==> {
                &&& count > 0
                &&& run_at(old(bits)@, old(self).frames as int, i as int, count as int)
                &&& forall|s: int|
                    s < i ==> !#[trigger] run_at(old(bits)@, old(self).frames as int, s, count as int)
                &&& marked(old(bits)@, final(bits)@, i as int, i + count)
                &&& final(self).free == old(self).free - count
            },
    {
        if count == 0 || count > self.frames {
            return None;
        }
        let ghost b0 = bits@;
        let ghost frames = self.frames as int;
        let mut run: usize = 0;
        let mut start: usize = 0;
        // Every free frame below `seen` has been looked at.
        let ghost mut seen: int = 0;
        let mut w: usize = 0;
        while w < bits.len()
            invariant
                *self == *old(self),
                self.wf(b0),
                bits@ == b0,
                b0 == old(bits)@,
                frames == self.frames,
                w <= b0.len(),
                seen == w * 64,
                0 < count <= frames,
                run < count,
                searched(b0, frames, count as int, start as int, run as int, seen),
            decreases b0.len() - w,
        {
            let word: u64 = bits[w];
            let mut free: u64 = !word;
            proof {
                lemma_not(word);
            }
            while free != 0
                invariant
                    *self == *old(self),
                    self.wf(b0),
                    bits@ == b0,
                    b0 == old(bits)@,
                    frames == self.frames,
                    w < b0.len(),
                    word == b0[w as int],
                    w * 64 <= seen <= w * 64 + 64,
                    0 < count <= frames,
                    run < count,
                    forall|j: int| 0 <= j < 64 ==> #[trigger] bit(!word, j) == !bit(word, j),
                    forall|j: int|
                        0 <= j < 64 ==> #[trigger] bit(free, j) == (!bit(word, j) && w * 64 + j >= seen),
                    searched(b0, frames, count as int, start as int, run as int, seen),
                decreases w * 64 + 64 - seen,
            {
                proof {
                    lemma_lowest(free);
                }
                let t: usize = free.trailing_zeros() as usize;
                let idx: usize = w * 64 + t;
                proof {
                    assert(bit(free, t as int));
                    assert(idx / 64 == w && idx % 64 == t);
                    assert(!used(b0, idx as int));
                    assert(seen <= idx < frames);
                    assert forall|j: int| seen <= j < idx implies #[trigger] used(b0, j) by {
                        assert(!bit(free, j % 64));
                        assert(j / 64 == w);
                        assert(w * 64 + j % 64 == j);
                    }
                }
                let ghost old_free = free;
                if run > 0 && start + run == idx {
                    proof {
                        lemma_run_grows(b0, frames, count as int, start as int, run as int, seen);
                    }
                    run = run + 1;
                } else {
                    proof {
                        lemma_run_restarts(
                            b0,
                            frames,
                            count as int,
                            start as int,
                            run as int,
                            seen,
                            idx as int,
                        );
                    }
                    start = idx;
                    run = 1;
                }
                proof {
                    seen = idx + 1;
                }
                if run == count {
                    self.claim(bits, start, count);
                    return Some(start);
                }
                free = free & (free - 1);
                proof {
                    assert forall|j: int| 0 <= j < 64 implies #[trigger] bit(free, j) == (!bit(word, j) && w * 64
                        + j >= seen) by {
                        assert(bit(old_free, j) == (!bit(word, j) && w * 64 + j >= seen) || j <= t);
                        if j < t {
                            assert(!bit(old_free, j));
                        }
                    }
                }
            }
            proof {
                assert forall|j: int| seen <= j < w * 64 + 64 implies #[trigger] used(b0, j) by {
                    assert(!bit(free, j % 64)) by {
                        let i = (j % 64) as u64;
                        assert((0u64 >> i) & 1 == 0) by (bit_vector);
                    }
                    assert(w * 64 + j % 64 == j);
                }
                lemma_seen_grows(b0, frames, count as int, start as int, run as int, seen, w * 64 + 64);
                seen = w * 64 + 64;
            }
            w = w + 1;
        }
        proof {
            assert forall|s: int| !#[trigger] run_at(b0, frames, s, count as int) by {
                lemma_none_left(b0, frames, count as int, start as int, run as int, seen, s);
            }
        }
        None
    }

    /// Mark `count` free frames from `first` on.
    pub fn claim(&mut self, bits: &mut [u64], first: usize, count: usize)
        requires
            old(self).wf(old(bits)@),
            run_at(old(bits)@, old(self).frames as int, first as int, count as int),
        ensures
            final(self).wf(final(bits)@),
            final(self).frames == old(self).frames,
            final(self).total_usable == old(self).total_usable,
            final(self).next_hint == old(self).next_hint,
            marked(old(bits)@, final(bits)@, first as int, first + count),
            final(self).free == old(self).free - count,
    {
        let ghost b0 = bits@;
        mark_range(bits, first, first + count);
        proof {
            let n = self.frames as int;
            lemma_count_marked(b0, bits@, first as int, first + count, n);
            lemma_count_bounds(bits@, n);
        }
        self.free = self.free - count;
    }

    /// Give a frame back.
    pub fn release(&mut self, bits: &mut [u64], i: usize)
        requires
            old(self).wf(old(bits)@),
            i < old(self).frames,
            used(old(bits)@, i as int),
        ensures
            final(self).wf(final(bits)@),
            final(self).frames == old(self).frames,
            final(self).total_usable == old(self).total_usable,
            final(self).free == old(self).free + 1,
            final(self).next_hint == if i < old(self).next_hint {
                i
            } else {
                old(self).next_hint
            },
            final(bits)@.len() == old(bits)@.len(),
            forall|j: int|
                0 <= j < old(bits)@.len() * 64 ==> #[trigger] used(final(bits)@, j) == (j != i && used(
                    old(bits)@,
                    j,
                )),
    {
        let ghost b0 = bits@;
        set_free(bits, i);
        proof {
            let n = self.frames as int;
            lemma_count_change(b0, bits@, i as int, n);
            lemma_count_bounds(bits@, n);
        }
        self.free = self.free + 1;
        if i < self.next_hint {
            self.next_hint = i;
        }
    }

    /// Release the frames from `lo` up to `hi` that are in use. Returns how
    /// many there were.
    pub fn release_used(&mut self, bits: &mut [u64], lo: usize, hi: usize) -> (r: usize)
        requires
            old(self).wf(old(bits)@),
            hi <= old(self).frames,
        ensures
            final(self).wf(final(bits)@),
            final(self).frames == old(self).frames,
            final(self).total_usable == old(self).total_usable,
            final(self).next_hint == old(self).next_hint,
            final(self).free == old(self).free + r,
            lo <= hi && (forall|j: int| lo <= j < hi ==> #[trigger] used(old(bits)@, j)) ==> r == hi - lo,
            final(bits)@.len() == old(bits)@.len(),
            forall|j: int|
                0 <= j < old(bits)@.len() * 64 ==> #[trigger] used(final(bits)@, j) == (!(lo <= j < hi)
                    && used(old(bits)@, j)),
    {
        let mut n: usize = 0;
        let mut j: usize = lo;
        while j < hi
            invariant
                lo <= j,
                j <= hi || j == lo,
                hi <= self.frames,
                self.wf(bits@),
                bits@.len() == old(bits)@.len(),
                self.frames == old(self).frames,
                self.total_usable == old(self).total_usable,
                self.next_hint == old(self).next_hint,
                self.free == old(self).free + n,
                lo <= hi && (forall|k: int| lo <= k < hi ==> #[trigger] used(old(bits)@, k)) ==> n == j - lo,
                forall|k: int|
                    0 <= k < old(bits)@.len() * 64 ==> #[trigger] used(bits@, k) == (!(lo <= k < j) && used(
                        old(bits)@,
                        k,
                    )),
            decreases hi - j,
        {
            if is_used(bits, j) {
                let ghost b1 = bits@;
                set_free(bits, j);
                proof {
                    let f = self.frames as int;
                    lemma_count_change(b1, bits@, j as int, f);
                    lemma_count_bounds(bits@, f);
                    assert forall|i: int| self.frames <= i < bits@.len() * 64 implies #[trigger] used(
                        bits@,
                        i,
                    ) by {
                        assert(used(b1, i));
                    }
                    assert forall|k: int| 0 <= k < old(bits)@.len() * 64 implies #[trigger] used(bits@, k)
                        == (!(lo <= k < j + 1) && used(old(bits)@, k)) by {
                        assert(used(b1, k) == (!(lo <= k < j) && used(old(bits)@, k)));
                    }
                }
                self.free = self.free + 1;
                n = n + 1;
            }
            j = j + 1;
        }
        n
    }
}

/// Mark the frames from `lo` up to `hi` as used.
pub fn mark_range(bits: &mut [u64], lo: usize, hi: usize)
    requires
        lo <= hi <= old(bits)@.len() * 64,
    ensures
        marked(old(bits)@, final(bits)@, lo as int, hi as int),
{
    let mut j: usize = lo;
    while j < hi
        invariant
            lo <= j <= hi <= bits@.len() * 64,
            marked(old(bits)@, bits@, lo as int, j as int),
        decreases hi - j,
    {
        let ghost b1 = bits@;
        set_used(bits, j);
        proof {
            assert forall|k: int| 0 <= k < old(bits)@.len() * 64 implies #[trigger] used(bits@, k) == (used(
                old(bits)@,
                k,
            ) || lo <= k < j + 1) by {
                assert(used(bits@, k) == (used(b1, k) || j <= k < j + 1));
            }
        }
        j = j + 1;
    }
}

/// What a search for a run has found out: the free frames from `start` on, `run`
/// of them, are adjacent and the last ones below `seen`, and no run of `count`
/// starts below `start` (below `seen`, if `run` is 0).
spec fn searched(b: Seq<u64>, frames: int, count: int, start: int, run: int, seen: int) -> bool {
    &&& 0 <= run
    &&& run > 0 ==> {
        &&& 0 <= start
        &&& start + run <= seen
        &&& start + run <= frames
        &&& forall|j: int| start <= j < start + run ==> !#[trigger] used(b, j)
        &&& forall|j: int| start + run <= j < seen ==> #[trigger] used(b, j)
        &&& forall|s: int| s < start ==> !#[trigger] run_at(b, frames, s, count)
    }
    &&& run == 0 ==> forall|j: int| 0 <= j < seen ==> #[trigger] used(b, j)
}

proof fn lemma_run_grows(b: Seq<u64>, frames: int, count: int, start: int, run: int, seen: int)
    requires
        searched(b, frames, count, start, run, seen),
        run > 0,
        start + run >= seen,
        start + run < frames,
        !used(b, start + run),
    ensures
        searched(b, frames, count, start, run + 1, start + run + 1),
{
}

proof fn lemma_run_restarts(
    b: Seq<u64>,
    frames: int,
    count: int,
    start: int,
    run: int,
    seen: int,
    idx: int,
)
    requires
        searched(b, frames, count, start, run, seen),
        0 <= seen <= idx < frames,
        0 <= run < count,
        run > 0 ==> start + run < idx,
        !used(b, idx),
        forall|j: int| seen <= j < idx ==> #[trigger] used(b, j),
    ensures
        searched(b, frames, count, idx, 1, idx + 1),
{
    assert forall|s: int| s < idx implies !#[trigger] run_at(b, frames, s, count) by {
        if run > 0 && s >= start {
            let last = start + run;
            assert(used(b, last));
            if s >= last {
                assert(used(b, s));
            }
        } else if run == 0 && s >= 0 {
            assert(used(b, s));
        }
    }
}

proof fn lemma_seen_grows(
    b: Seq<u64>,
    frames: int,
    count: int,
    start: int,
    run: int,
    seen: int,
    more: int,
)
    requires
        searched(b, frames, count, start, run, seen),
        seen <= more,
        forall|j: int| seen <= j < more ==> #[trigger] used(b, j),
    ensures
        searched(b, frames, count, start, run, more),
{
}

proof fn lemma_none_left(
    b: Seq<u64>,
    frames: int,
    count: int,
    start: int,
    run: int,
    seen: int,
    s: int,
)
    requires
        searched(b, frames, count, start, run, seen),
        0 <= run < count,
        frames <= seen,
    ensures
        !run_at(b, frames, s, count),
{
    if run_at(b, frames, s, count) {
        if run == 0 {
            assert(used(b, s));
        } else if s < start + run {
            if s >= start && start + run < frames {
                assert(used(b, start + run));
            }
        } else {
            assert(used(b, s));
        }
    }
}

/// What the search of [`Bitmap::take`] has seen makes its find the next frame.
proof fn lemma_is_next(b: &Bitmap, bits: Seq<u64>, idx: int, first: int, step: int, w: int)
    requires
        b.wf(bits),
        0 <= step < bits.len(),
        0 <= idx < b.frames,
        !used(bits, idx),
        first == if b.next_hint / 64 < bits.len() {
            b.next_hint as int / 64
        } else {
            0
        },
        w == if first + step < bits.len() {
            first + step
        } else {
            first + step - bits.len()
        },
        w * 64 <= idx < w * 64 + 64,
        forall|j: int| w * 64 <= j < idx ==> #[trigger] used(bits, j),
        forall|j: int|
            first * 64 <= j < bits.len() * 64 && j < (first + step) * 64 ==> #[trigger] used(bits, j),
        forall|j: int| 0 <= j < (first + step - bits.len()) * 64 ==> #[trigger] used(bits, j),
    ensures
        b.is_next(bits, idx),
{
    let s = b.next_hint as int / 64 * 64;
    if s <= idx {
        assert(first * 64 == s);
        assert forall|j: int| s <= j < idx implies #[trigger] used(bits, j) by {}
    } else {
        assert forall|j: int| s <= j < b.frames implies #[trigger] used(bits, j) by {}
        assert forall|j: int| 0 <= j < idx implies #[trigger] used(bits, j) by {}
    }
}

/// The search goes once round the map: between its start and the frame it gives,
/// going up and on from the bottom, no frame `j` is free.
pub proof fn lemma_next_round(b: &Bitmap, bits: Seq<u64>, i: int, j: int)
    requires
        b.is_next(bits, i),
        0 <= j < b.frames,
        !used(bits, j),
        i != j,
    ensures
        0 <= i < b.frames,
        !used(bits, i),
        ({
            let s = b.next_hint as int - b.next_hint as int % 64;
            ||| s <= i && i < j
            ||| s <= i && j < s
            ||| i < j && j < s
        }),
{
}

/// The frame that is one further is the next bit of the same word, or the first
/// bit of the next word.
pub proof fn lemma_frames_in_words(bits: Seq<u64>, w: int, k: u64)
    requires
        0 <= w < bits.len(),
        k < 64,
    ensures
        used(bits, w * 64 + k) <==> (bits[w] >> k) % 2 == 1,
{
    let v = bits[w];
    assert((w * 64 + k as int) / 64 == w && (w * 64 + k as int) % 64 == k as int);
    assert((v >> k) & 1 == (v >> k) % 2) by (bit_vector);
}

/// A run is free frames next to each other: it holds every shorter one, a run of
/// one is a free frame, and two runs that meet make one.
pub proof fn lemma_runs(bits: Seq<u64>, frames: int, s: int, n: int, m: int)
    requires
        0 <= n,
        0 <= m,
    ensures
        run_at(bits, frames, s, 1) <==> 0 <= s < frames && !used(bits, s),
        run_at(bits, frames, s, n + m) ==> run_at(bits, frames, s, n) && run_at(bits, frames, s + n, m),
        run_at(bits, frames, s, n) && run_at(bits, frames, s + n, m) ==> run_at(bits, frames, s, n + m),
{
}

/// Free frames and frames in use are all there are.
pub proof fn lemma_count_splits(bits: Seq<u64>, n: int, i: int)
    requires
        0 <= i < n,
    ensures
        count_free(bits, n) == n ==> !used(bits, i),
        count_free(bits, n) == 0 ==> used(bits, i),
        count_free(bits, i + 1) - count_free(bits, i) == if used(bits, i) {
            0
        } else {
            1int
        },
    decreases n,
{
    lemma_count_bounds(bits, n - 1);
    if i < n - 1 {
        lemma_count_splits(bits, n - 1, i);
    }
}

} // verus!
