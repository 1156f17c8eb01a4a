//! Memory objects: sets of physical frames that can be mapped into address
//! spaces. Frames are returned to the frame allocator when the last capability
//! and the last mapping are gone.
use vstd::prelude::*;

use crate::kernel::bitmap;
use crate::kernel::bitmap::Bitmap;
use crate::kernel::pmm;

verus! {

/// Address `a` is that of a frame of the map that is in use.
pub open spec fn held(a: u64, bits: Seq<u64>, frames: int) -> bool {
    &&& a % 4096 == 0
    &&& a / 4096 < frames
    &&& bitmap::used(bits, a as int / 4096)
}

/// A list of frames, each in use and none listed twice.
pub open spec fn owned(list: Seq<u64>, bits: Seq<u64>, frames: int) -> bool {
    &&& forall|i: int| 0 <= i < list.len() ==> held(#[trigger] list[i], bits, frames)
    &&& forall|i: int, j: int|
        #![trigger list[i], list[j]]
        0 <= i < j < list.len() ==> list[i] != list[j]
}

/// Frame `j` is in the list.
pub open spec fn lists(list: Seq<u64>, j: int) -> bool {
    exists|i: int| 0 <= i < list.len() && #[trigger] list[i] as int / 4096 == j
}

/// A set of physical frames.
pub struct MemoryObject {
    /// Physical address of each frame.
    pub frames: Vec<u64>,
}

/// Give back the frames of a list.
fn free_list(list: &Vec<u64>, bm: &mut Bitmap, bits: &mut [u64])
    requires
        old(bm).wf(old(bits)@),
        owned(list@, old(bits)@, old(bm).frames as int),
    ensures
        final(bm).wf(final(bits)@),
        final(bm).frames == old(bm).frames,
        final(bm).total_usable == old(bm).total_usable,
        final(bm).free == old(bm).free + list@.len(),
        final(bits)@.len() == old(bits)@.len(),
        forall|j: int|
            0 <= j < old(bits)@.len() * 64 ==> #[trigger] bitmap::used(final(bits)@, j) == (bitmap::used(
                old(bits)@,
                j,
            ) && !lists(list@, j)),
{
    let mut i: usize = 0;
    let ghost b0 = bits@;
    let ghost frames = bm.frames as int;
    while i < list.len()
        invariant
            i <= list@.len(),
            frames == old(bm).frames,
            b0 == old(bits)@,
            owned(list@, b0, frames),
            bm.wf(bits@),
            bm.frames == frames,
            bm.total_usable == old(bm).total_usable,
            bm.free == old(bm).free + i,
            bits@.len() == b0.len(),
            forall|j: int|
                0 <= j < b0.len() * 64 ==> #[trigger] bitmap::used(bits@, j) == (bitmap::used(b0, j)
                    && !lists(list@.subrange(0, i as int), j)),
        decreases list@.len() - i,
    {
        let a: u64 = list[i];
        let ghost b1 = bits@;
        let ghost k = a as int / 4096;
        proof {
            assert(held(list@[i as int], b0, frames));
            assert(!lists(list@.subrange(0, i as int), k)) by {
                if lists(list@.subrange(0, i as int), k) {
                    let p = choose|p: int|
                        0 <= p < i && #[trigger] list@.subrange(0, i as int)[p] as int / 4096 == k;
                    assert(held(list@[p], b0, frames));
                    assert(list@[p] != list@[i as int]);
                }
            }
            assert(bitmap::used(b1, k));
        }
        pmm::free_frame(bm, bits, a);
        proof {
            assert forall|j: int| 0 <= j < b0.len() * 64 implies #[trigger] bitmap::used(bits@, j) == (
            bitmap::used(b0, j) && !lists(list@.subrange(0, i + 1), j)) by {
                assert(bitmap::used(b1, j) == (bitmap::used(b0, j) && !lists(
                    list@.subrange(0, i as int),
                    j,
                )));
                lemma_lists_step(list@, i as int, j);
            }
        }
        i = i + 1;
    }
    assert(list@.subrange(0, list@.len() as int) =~= list@);
}

proof fn lemma_lists_step(list: Seq<u64>, i: int, j: int)
    requires
        0 <= i < list.len(),
    ensures
        lists(list.subrange(0, i + 1), j) == (lists(list.subrange(0, i), j) || list[i] as int / 4096 == j),
{
    let s = list.subrange(0, i);
    let t = list.subrange(0, i + 1);
    if lists(t, j) {
        let p = choose|p: int| 0 <= p < t.len() && #[trigger] t[p] as int / 4096 == j;
        if p < i {
            assert(s[p] == t[p]);
        }
    }
    if lists(s, j) {
        let p = choose|p: int| 0 <= p < s.len() && #[trigger] s[p] as int / 4096 == j;
        assert(t[p] == s[p]);
    }
    if list[i] as int / 4096 == j {
        assert(t[i] == list[i]);
    }
}

impl MemoryObject {
    /// Take `pages` frames one by one. If there are not enough, those taken are
    /// given back.
    pub fn new(bm: &mut Bitmap, bits: &mut [u64], pages: usize) -> (r: Option<Self>)
        requires
            old(bm).wf(old(bits)@),
        ensures
            final(bm).wf(final(bits)@),
            final(bm).frames == old(bm).frames,
            final(bm).total_usable == old(bm).total_usable,
            final(bits)@.len() == old(bits)@.len(),
            r is Some <==> pages <= old(bm).free,
            r is None ==> final(bm).free == old(bm).free && forall|j: int|
                0 <= j < old(bits)@.len() * 64 ==> #[trigger] bitmap::used(final(bits)@, j) == bitmap::used(
                    old(bits)@,
                    j,
                ),
            r matches Some(m) ==> {
                &&& m.frames@.len() == pages
                &&& owned(m.frames@, final(bits)@, old(bm).frames as int)
                &&& final(bm).free == old(bm).free - pages
                &&& forall|i: int|
                    0 <= i < pages ==> !bitmap::used(old(bits)@, (#[trigger] m.frames@[i]) as int / 4096)
                &&& forall|j: int|
                    0 <= j < old(bits)@.len() * 64 ==> #[trigger] bitmap::used(final(bits)@, j) == (
                    bitmap::used(old(bits)@, j) || lists(m.frames@, j))
            },
    {
        let mut frames: Vec<u64> = Vec::new();
        let ghost b0 = bits@;
        let ghost n = bm.frames as int;
        while frames.len() < pages
            invariant
                frames@.len() <= pages,
                b0 == old(bits)@,
                n == old(bm).frames,
                bm.wf(bits@),
                bm.frames == n,
                bm.total_usable == old(bm).total_usable,
                bits@.len() == b0.len(),
                bm.free == old(bm).free - frames@.len(),
                owned(frames@, bits@, n),
                forall|i: int|
                    0 <= i < frames@.len() ==> !bitmap::used(b0, (#[trigger] frames@[i]) as int / 4096),
                forall|j: int|
                    0 <= j < b0.len() * 64 ==> #[trigger] bitmap::used(bits@, j) == (bitmap::used(b0, j)
                        || lists(frames@, j)),
            decreases pages - frames@.len(),
        {
            let ghost b1 = bits@;
            let ghost f1 = frames@;
            match pmm::alloc_frame(bm, bits) {
                Some(a) => {
                    frames.push(a);
                    proof {
                        let k = a as int / 4096;
                        assert(!bitmap::used(b1, k));
                        assert(bitmap::used(bits@, k));
                        assert(bitmap::used(b1, k) == (bitmap::used(b0, k) || lists(f1, k)));
                        assert forall|i: int| 0 <= i < frames@.len() implies held(
                            #[trigger] frames@[i],
                            bits@,
                            n,
                        ) by {
                            if i < f1.len() {
                                assert(held(f1[i], b1, n));
                                assert(bitmap::used(bits@, f1[i] as int / 4096));
                            }
                        }
                        assert forall|i: int, j: int|
                            #![trigger frames@[i], frames@[j]]
                            0 <= i < j < frames@.len() implies frames@[i] != frames@[j] by {
                            if j == f1.len() {
                                assert(held(f1[i], b1, n));
                            } else {
                                assert(f1[i] != f1[j]);
                            }
                        }
                        assert(frames@.subrange(0, f1.len() as int) =~= f1);
                        assert(frames@.subrange(0, frames@.len() as int) =~= frames@);
                        assert forall|j: int| 0 <= j < b0.len() * 64 implies #[trigger] bitmap::used(
                            bits@,
                            j,
                        ) == (bitmap::used(b0, j) || lists(frames@, j)) by {
                            assert(bitmap::used(b1, j) == (bitmap::used(b0, j) || lists(f1, j)));
                            lemma_lists_step(frames@, f1.len() as int, j);
                        }
                    }
                },
                None => {
                    proof {
                        lemma_no_free(b1, n);
                    }
                    free_list(&frames, bm, bits);
                    proof {
                        assert forall|j: int| 0 <= j < b0.len() * 64 implies #[trigger] bitmap::used(
                            bits@,
                            j,
                        ) == bitmap::used(b0, j) by {
                            assert(bitmap::used(b1, j) == (bitmap::used(b0, j) || lists(f1, j)));
                            if lists(f1, j) {
                                let p = choose|p: int|
                                    0 <= p < f1.len() && #[trigger] f1[p] as int / 4096 == j;
                                assert(!bitmap::used(b0, f1[p] as int / 4096));
                            }
                        }
                    }
                    return None;
                },
            }
        }
        Some(MemoryObject { frames })
    }

    /// Take `pages` physically contiguous frames, the lowest there are.
    pub fn contiguous(bm: &mut Bitmap, bits: &mut [u64], pages: usize) -> (r: Option<Self>)
        requires
            old(bm).wf(old(bits)@),
            pages > 0,
        ensures
            final(bm).wf(final(bits)@),
            final(bm).frames == old(bm).frames,
            final(bm).total_usable == old(bm).total_usable,
            final(bits)@.len() == old(bits)@.len(),
            r is None ==> *final(bm) == *old(bm) && final(bits)@ == old(bits)@ && forall|s: int|
                !#[trigger] bitmap::run_at(old(bits)@, old(bm).frames as int, s, pages as int),
            r matches Some(m) ==> {
                let s = m.frames@[0] as int / 4096;
                &&& m.frames@.len() == pages
                &&& owned(m.frames@, final(bits)@, old(bm).frames as int)
                &&& forall|i: int| 0 <= i < pages ==> #[trigger] m.frames@[i] == (s + i) * 4096
                &&& bitmap::run_at(old(bits)@, old(bm).frames as int, s, pages as int)
                &&& forall|t: int|
                    t < s ==> !#[trigger] bitmap::run_at(old(bits)@, old(bm).frames as int, t, pages as int)
                &&& bitmap::marked(old(bits)@, final(bits)@, s, s + pages)
                &&& final(bm).free == old(bm).free - pages
            },
    {
        match pmm::alloc_contiguous_frames(bm, bits, pages) {
            None => None,
            Some(a) => {
                let ghost s = a as int / 4096;
                let mut frames: Vec<u64> = Vec::new();
                while frames.len() < pages
                    invariant
                        frames@.len() <= pages,
                        a == s * 4096,
                        s + pages <= bm.frames,
                        bm.frames <= bitmap::MAX_FRAMES,
                        forall|i: int| 0 <= i < frames@.len() ==> #[trigger] frames@[i] == (s + i) * 4096,
                    decreases pages - frames@.len(),
                {
                    frames.push(a + frames.len() as u64 * pmm::FRAME_SIZE);
                }
                proof {
                    assert forall|i: int| 0 <= i < frames@.len() implies held(
                        #[trigger] frames@[i],
                        bits@,
                        bm.frames as int,
                    ) by {
                        assert(bitmap::used(bits@, s + i));
                    }
                    assert(frames@[0] as int / 4096 == s);
                }
                Some(MemoryObject { frames })
            },
        }
    }

    pub fn pages(&self) -> (r: usize)
        ensures
            r == self.frames@.len(),
    {
        self.frames.len()
    }
}

proof fn lemma_no_free(b: Seq<u64>, n: int)
    requires
        forall|i: int| 0 <= i < n ==> #[trigger] bitmap::used(b, i),
    ensures
        bitmap::count_free(b, n) == 0,
    decreases n,
{
    if n > 0 {
        lemma_no_free(b, n - 1);
        assert(bitmap::used(b, n - 1));
    }
}

/// Frames stay in use while the map only gains used frames.
proof fn lemma_owned_grows(list: Seq<u64>, b0: Seq<u64>, b1: Seq<u64>, frames: int)
    requires
        owned(list, b0, frames),
        b1.len() == b0.len(),
        frames <= b0.len() * 64,
        forall|j: int| 0 <= j < b0.len() * 64 && bitmap::used(b0, j) ==> #[trigger] bitmap::used(b1, j),
    ensures
        owned(list, b1, frames),
{
    assert forall|i: int| 0 <= i < list.len() implies held(#[trigger] list[i], b1, frames) by {
        assert(held(list[i], b0, frames));
        assert(bitmap::used(b1, list[i] as int / 4096));
    }
}

/// A memory object and the number of capabilities and mappings that refer to
/// it.
pub struct Counted {
    pub object: MemoryObject,
    pub refs: u64,
}

/// The kernel's memory objects, by number.
pub struct MemTable {
    pub objects: Vec<Option<Counted>>,
}

impl MemTable {
    /// The frames of object `id`.
    pub open spec fn frames_of(&self, id: int) -> Seq<u64> {
        self.objects@[id]->0.object.frames@
    }

    /// Object `id` exists.
    pub open spec fn live(&self, id: int) -> bool {
        0 <= id < self.objects@.len() && self.objects@[id] is Some
    }

    /// How many capabilities and mappings refer to object `id`.
    pub open spec fn refs(&self, id: u32) -> int {
        if self.live(id as int) {
            self.objects@[id as int]->0.refs as int
        } else {
            0
        }
    }

    /// Every object is referred to, its frames are in use, and no two objects
    /// share a frame.
    pub open spec fn wf(&self, bits: Seq<u64>, frames: int) -> bool {
        &&& self.objects@.len() <= u32::MAX
        &&& forall|i: int|
            #![trigger self.objects@[i]]
            self.live(i) ==> self.objects@[i]->0.refs > 0 && owned(self.frames_of(i), bits, frames)
        &&& forall|i: int, j: int, f: int|
            #![trigger self.objects@[i], self.objects@[j], lists(self.frames_of(i), f)]
            self.live(i) && self.live(j) && i != j && lists(self.frames_of(i), f) ==> !lists(
                self.frames_of(j),
                f,
            )
    }

    pub fn new() -> (r: Self)
        ensures
            r.objects@.len() == 0,
            forall|bits: Seq<u64>, frames: int| #[trigger] r.wf(bits, frames),
    {
        MemTable { objects: Vec::new() }
    }

    /// Keep a new object, referred to once. Returns its number.
    fn add_object(&mut self, object: MemoryObject, Ghost(bits): Ghost<Seq<u64>>, Ghost(frames): Ghost<
        int,
    >) -> (id: u32)
        requires
            old(self).wf(bits, frames),
            old(self).objects@.len() < u32::MAX,
            owned(object.frames@, bits, frames),
            forall|i: int, f: int|
                #![trigger lists(old(self).frames_of(i), f)]
                old(self).live(i) && lists(old(self).frames_of(i), f) ==> !lists(object.frames@, f),
        ensures
            final(self).wf(bits, frames),
            !old(self).live(id as int),
            final(self).live(id as int),
            final(self).objects@[id as int] == Some(Counted { object, refs: 1 }),
            old(self).objects@.len() <= final(self).objects@.len() <= old(self).objects@.len() + 1,
            forall|i: int| old(self).live(i) ==> #[trigger] final(self).live(i),
            forall|i: int|
                0 <= i < old(self).objects@.len() && i != id ==> #[trigger] final(self).objects@[i] == old(
                    self,
                ).objects@[i],
            forall|i: int| i != id && #[trigger] final(self).live(i) ==> old(self).live(i),
    {
        let ghost o0 = self.objects@;
        let ghost fr = object.frames@;
        let mut i: usize = 0;
        while i < self.objects.len() && self.objects[i].is_some()
            invariant
                i <= self.objects@.len(),
                self.objects@ == o0,
            decreases self.objects@.len() - i,
        {
            i = i + 1;
        }
        let entry: Option<Counted> = Some(Counted { object, refs: 1 });
        if i < self.objects.len() {
            self.objects[i] = entry;
        } else {
            self.objects.push(entry);
        }
        proof {
            assert forall|k: int| k != i && #[trigger] self.live(k) implies old(self).live(k) by {}
            assert forall|k: int|
                #![trigger self.objects@[k]]
                self.live(k) implies self.objects@[k]->0.refs > 0 && owned(self.frames_of(k), bits, frames) by {
                if k != i {
                    assert(self.live(k) && old(self).live(k));
                    assert(o0[k] is Some);
                }
            }
            assert forall|k: int, j: int, f: int|
                #![trigger self.objects@[k], self.objects@[j], lists(self.frames_of(k), f)]
                self.live(k) && self.live(j) && k != j && lists(self.frames_of(k), f) implies !lists(
                self.frames_of(j),
                f,
            ) by {
                if k != i {
                    assert(old(self).live(k) && o0[k] is Some);
                    assert(lists(old(self).frames_of(k), f));
                }
                if j != i {
                    assert(old(self).live(j) && o0[j] is Some);
                    assert(lists(self.frames_of(j), f) == lists(old(self).frames_of(j), f));
                }
            }
        }
        i as u32
    }

    /// Allocate a memory object of `pages` frames, contiguous if `dma`, referred
    /// to once. Returns its number. The frames are not cleared.
    pub fn create(&mut self, bm: &mut Bitmap, bits: &mut [u64], pages: usize, dma: bool) -> (r: Option<u32>)
        requires
            old(bm).wf(old(bits)@),
            old(self).wf(old(bits)@, old(bm).frames as int),
            old(self).objects@.len() < u32::MAX,
            pages > 0,
        ensures
            final(bm).wf(final(bits)@),
            final(bm).frames == old(bm).frames,
            final(bm).total_usable == old(bm).total_usable,
            final(bits)@.len() == old(bits)@.len(),
            final(self).wf(final(bits)@, old(bm).frames as int),
            !dma ==> (r is Some <==> pages <= old(bm).free),
            dma ==> (r is Some <==> exists|s: int| #[trigger]
                bitmap::run_at(old(bits)@, old(bm).frames as int, s, pages as int)),
            r is None ==> final(self).objects@ == old(self).objects@ && final(bm).free == old(bm).free
                && forall|j: int|
                0 <= j < old(bits)@.len() * 64 ==> #[trigger] bitmap::used(final(bits)@, j) == bitmap::used(
                    old(bits)@,
                    j,
                ),
            r matches Some(id) ==> {
                let list = final(self).frames_of(id as int);
                &&& !old(self).live(id as int)
                &&& final(self).live(id as int)
                &&& final(self).objects@[id as int]->0.refs == 1
                &&& list.len() == pages
                &&& dma ==> forall|i: int|
                    0 <= i < pages ==> #[trigger] list[i] == list[0] + i * 4096
                &&& final(bm).free == old(bm).free - pages
                &&& forall|i: int|
                    0 <= i < old(self).objects@.len() && i != id ==> #[trigger] final(self).objects@[i]
                        == old(self).objects@[i]
                &&& forall|i: int| i != id && #[trigger] final(self).live(i) ==> old(self).live(i)
                &&& old(self).objects@.len() <= final(self).objects@.len()
                &&& forall|i: int|
                    0 <= i < pages ==> !bitmap::used(old(bits)@, (#[trigger] list[i]) as int / 4096)
                &&& forall|j: int|
                    0 <= j < old(bits)@.len() * 64 ==> #[trigger] bitmap::used(final(bits)@, j) == (
                    bitmap::used(old(bits)@, j) || lists(list, j))
            },
    {
        let ghost b0 = bits@;
        let ghost n = bm.frames as int;
        let made: Option<MemoryObject> = if dma {
            MemoryObject::contiguous(bm, bits, pages)
        } else {
            MemoryObject::new(bm, bits, pages)
        };
        match made {
            None => {
                proof {
                    assert forall|i: int|
                        #![trigger self.objects@[i]]
                        self.live(i) implies self.objects@[i]->0.refs > 0 && owned(
                        self.frames_of(i),
                        bits@,
                        n,
                    ) by {
                        lemma_owned_grows(self.frames_of(i), b0, bits@, n);
                    }
                }
                None
            },
            Some(m) => {
                let ghost fr = m.frames@;
                proof {
                    assert forall|j: int| 0 <= j < b0.len() * 64 implies #[trigger] bitmap::used(bits@, j)
                        == (bitmap::used(b0, j) || lists(fr, j)) by {
                        if dma {
                            let s = fr[0] as int / 4096;
                            if s <= j < s + pages {
                                assert(fr[j - s] as int / 4096 == j);
                            }
                            if lists(fr, j) {
                                let p = choose|p: int|
                                    0 <= p < fr.len() && #[trigger] fr[p] as int / 4096 == j;
                                assert(fr[p] == (s + p) * 4096);
                            }
                        }
                    }
                    assert forall|i: int| 0 <= i < fr.len() implies !bitmap::used(
                        b0,
                        (#[trigger] fr[i]) as int / 4096,
                    ) by {
                        if dma {
                            let s = fr[0] as int / 4096;
                            assert(fr[i] == (s + i) * 4096);
                            assert(!bitmap::used(b0, s + i));
                        }
                    }
                    assert(self.wf(bits@, n)) by {
                        assert forall|i: int|
                            #![trigger self.objects@[i]]
                            self.live(i) implies self.objects@[i]->0.refs > 0 && owned(
                            self.frames_of(i),
                            bits@,
                            n,
                        ) by {
                            lemma_owned_grows(self.frames_of(i), b0, bits@, n);
                        }
                    }
                    assert forall|i: int, f: int|
                        #![trigger lists(self.frames_of(i), f)]
                        self.live(i) && lists(self.frames_of(i), f) implies !lists(fr, f) by {
                        let l = self.frames_of(i);
                        assert(self.objects@[i] is Some);
                        let p = choose|p: int| 0 <= p < l.len() && #[trigger] l[p] as int / 4096 == f;
                        assert(held(l[p], b0, n));
                        if lists(fr, f) {
                            let q = choose|q: int| 0 <= q < fr.len() && #[trigger] fr[q] as int / 4096 == f;
                            assert(!bitmap::used(b0, fr[q] as int / 4096));
                        }
                    }
                }
                Some(self.add_object(m, Ghost(bits@), Ghost(n)))
            },
        }
    }

    /// One more capability or mapping refers to object `id`.
    pub fn retain(&mut self, id: u32)
        requires
            old(self).live(id as int),
            old(self).objects@[id as int]->0.refs < u64::MAX,
        ensures
            final(self).objects@ == old(self).objects@.update(
                id as int,
                Some(
                    Counted {
                        refs: (old(self).objects@[id as int]->0.refs + 1) as u64,
                        ..old(self).objects@[id as int]->0
                    },
                ),
            ),
    {
        if let Some(c) = &mut self.objects[id as usize] {
            c.refs = c.refs + 1;
        }
    }

    /// A table in which only the number of references to one object has grown
    /// is as good as before.
    pub proof fn lemma_recounted(&self, old: &MemTable, id: u32, bits: Seq<u64>, frames: int)
        requires
            old.wf(bits, frames),
            old.live(id as int),
            old.objects@[id as int]->0.refs < u64::MAX,
            self.objects@ == old.objects@.update(
                id as int,
                Some(
                    Counted {
                        refs: (old.objects@[id as int]->0.refs + 1) as u64,
                        ..old.objects@[id as int]->0
                    },
                ),
            ),
        ensures
            self.wf(bits, frames),
            forall|i: u32| #[trigger]
                self.refs(i) == old.refs(i) + if i == id {
                    1int
                } else {
                    0
                },
    {
        assert forall|i: int|
            #![trigger self.objects@[i]]
            self.live(i) implies self.objects@[i]->0.refs > 0 && owned(self.frames_of(i), bits, frames) by {
            assert(old.objects@[i] is Some);
        }
        assert forall|i: int, j: int, f: int|
            #![trigger self.objects@[i], self.objects@[j], lists(self.frames_of(i), f)]
            self.live(i) && self.live(j) && i != j && lists(self.frames_of(i), f) implies !lists(
            self.frames_of(j),
            f,
        ) by {
            assert(old.objects@[i] is Some && old.objects@[j] is Some);
            assert(lists(old.frames_of(i), f));
        }
    }

    /// `self` is `old` after one reference to object `id` was given up, with the
    /// frame map going from `b0` to `b1`. With the last reference the object
    /// goes, and its frames go back.
    pub open spec fn let_go(
        &self,
        old: &MemTable,
        id: u32,
        bm0: &Bitmap,
        bm1: &Bitmap,
        b0: Seq<u64>,
        b1: Seq<u64>,
    ) -> bool {
        let c = old.objects@[id as int]->0;
        &&& bm1.frames == bm0.frames
        &&& bm1.total_usable == bm0.total_usable
        &&& b1.len() == b0.len()
        &&& self.objects@.len() == old.objects@.len()
        &&& forall|i: int|
            0 <= i < old.objects@.len() && i != id ==> #[trigger] self.objects@[i] == old.objects@[i]
        &&& if c.refs > 1 {
            &&& self.objects@[id as int] == Some(Counted { refs: (c.refs - 1) as u64, ..c })
            &&& *bm1 == *bm0
            &&& b1 == b0
        } else {
            &&& self.objects@[id as int] is None
            &&& bm1.free == bm0.free + c.object.frames@.len()
            &&& forall|j: int|
                0 <= j < b0.len() * 64 ==> #[trigger] bitmap::used(b1, j) == (bitmap::used(b0, j)
                    && !lists(c.object.frames@, j))
        }
    }

    /// One capability or mapping less refers to object `id`.
    pub fn release(&mut self, id: u32, bm: &mut Bitmap, bits: &mut [u64])
        requires
            old(bm).wf(old(bits)@),
            old(self).wf(old(bits)@, old(bm).frames as int),
            old(self).live(id as int),
        ensures
            final(bm).wf(final(bits)@),
            final(self).wf(final(bits)@, old(bm).frames as int),
            final(self).let_go(old(self), id, old(bm), final(bm), old(bits)@, final(bits)@),
    {
        let ghost o0 = self.objects@;
        let ghost n = bm.frames as int;
        let mut last: bool = false;
        if let Some(c) = &mut self.objects[id as usize] {
            if c.refs > 1 {
                c.refs = c.refs - 1;
            } else {
                last = true;
            }
        }
        if !last {
            proof {
                assert forall|i: int|
                    #![trigger self.objects@[i]]
                    self.live(i) implies self.objects@[i]->0.refs > 0 && owned(self.frames_of(i), bits@, n) by {
                    assert(o0[i] is Some);
                }
                assert forall|i: int, j: int, f: int|
                    #![trigger self.objects@[i], self.objects@[j], lists(self.frames_of(i), f)]
                    self.live(i) && self.live(j) && i != j && lists(self.frames_of(i), f) implies !lists(
                    self.frames_of(j),
                    f,
                ) by {
                    assert(o0[i] is Some && o0[j] is Some);
                    assert(lists(old(self).frames_of(i), f));
                }
            }
            return ;
        }
        let gone: Option<Counted> = self.objects[id as usize].take();
        if let Some(c) = gone {
            let ghost b0 = bits@;
            let ghost fr = c.object.frames@;
            proof {
                assert(o0[id as int] is Some);
                assert(fr == old(self).frames_of(id as int));
            }
            free_list(&c.object.frames, bm, bits);
            proof {
                assert forall|i: int|
                    #![trigger self.objects@[i]]
                    self.live(i) implies self.objects@[i]->0.refs > 0 && owned(self.frames_of(i), bits@, n) by {
                    assert(o0[i] is Some && i != id);
                    let l = self.frames_of(i);
                    assert(l == old(self).frames_of(i));
                    assert forall|k: int| 0 <= k < l.len() implies held(#[trigger] l[k], bits@, n) by {
                        assert(held(l[k], b0, n));
                        let f = l[k] as int / 4096;
                        assert(lists(old(self).frames_of(i), f));
                        assert(o0[id as int] is Some);
                        assert(!lists(old(self).frames_of(id as int), f));
                    }
                }
                assert forall|i: int, j: int, f: int|
                    #![trigger self.objects@[i], self.objects@[j], lists(self.frames_of(i), f)]
                    self.live(i) && self.live(j) && i != j && lists(self.frames_of(i), f) implies !lists(
                    self.frames_of(j),
                    f,
                ) by {
                    assert(o0[i] is Some && o0[j] is Some);
                    assert(lists(old(self).frames_of(i), f));
                }
            }
        }
    }
}

/// An object has no more frames than there are.
pub proof fn lemma_fits(m: &MemTable, id: int, bits: Seq<u64>, frames: int)
    requires
        m.wf(bits, frames),
        m.live(id),
        0 <= frames,
    ensures
        m.frames_of(id).len() <= frames,
{
    assert(m.objects@[id] is Some);
    let list = m.frames_of(id);
    let ixs = list.map_values(|a: u64| a as int / 4096);
    assert(ixs.no_duplicates()) by {
        assert forall|i: int, j: int|
            0 <= i < ixs.len() && 0 <= j < ixs.len() && i != j implies ixs[i] != ixs[j] by {
            assert(held(list[i], bits, frames) && held(list[j], bits, frames));
            if i < j {
                assert(list[i] != list[j]);
            } else {
                assert(list[j] != list[i]);
            }
        }
    }
    ixs.unique_seq_to_set();
    let all = vstd::set_lib::set_int_range(0, frames);
    vstd::set_lib::lemma_int_range(0, frames);
    assert(ixs.to_set().subset_of(all)) by {
        assert forall|x: int| ixs.to_set().contains(x) implies all.contains(x) by {
            let i = choose|i: int| 0 <= i < ixs.len() && ixs[i] == x;
            assert(held(list[i], bits, frames));
        }
    }
    vstd::set_lib::lemma_len_subset(ixs.to_set(), all);
}

/// A reference given up is one less. Frame `j` goes back only with the last
/// reference to the object that has it; the frames of other objects stay in use.
pub proof fn lemma_frames_back(
    old: &MemTable,
    new: &MemTable,
    id: u32,
    bm0: &Bitmap,
    bm1: &Bitmap,
    b0: Seq<u64>,
    b1: Seq<u64>,
    other: u32,
    i: int,
)
    requires
        bm0.wf(b0),
        old.wf(b0, bm0.frames as int),
        old.live(id as int),
        new.let_go(old, id, bm0, bm1, b0, b1),
        old.live(other as int),
        0 <= i < old.frames_of(other as int).len(),
    ensures
        new.refs(id) == old.refs(id) - 1,
        other != id ==> new.refs(other) == old.refs(other),
        ({
            let f = old.frames_of(other as int)[i] as int / 4096;
            &&& bitmap::used(b0, f)
            &&& bitmap::used(b1, f) <==> other != id || old.refs(id) > 1
        }),
        bm1.free - bm0.free == if old.refs(id) == 1 {
            old.frames_of(id as int).len() as int
        } else {
            0
        },
{
    let list = old.frames_of(other as int);
    let f = list[i] as int / 4096;
    assert(old.objects@[other as int] is Some);
    assert(old.objects@[id as int] is Some);
    assert(held(list[i], b0, bm0.frames as int));
    assert(lists(list, f));
    if old.refs(id) == 1 && other != id {
        assert(!lists(old.frames_of(id as int), f));
    }
}

} // verus!
