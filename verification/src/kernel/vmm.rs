//! Virtual memory: user address spaces that share the kernel half of the page
//! tables, and what tearing one down gives back.
use vstd::multiset::Multiset;
use vstd::prelude::*;
use x86_64::structures::paging::PageTable;

verus! {

/// Kernel heap window (PML4 slot 288), far away from the direct map of physical
/// memory (256) and the image (511).
pub const KERNEL_HEAP_START: u64 = 0xffff_9000_0000_0000;

/// Top of the canonical lower half; user stacks grow down from here.
pub const USER_STACK_TOP: u64 = 0x0000_7fff_ffff_0000;

pub const USER_CODE_BASE: u64 = 0x0000_0000_0040_0000;

/// The address bits of a page table entry.
pub const ADDR_MASK: u64 = 0x000f_ffff_ffff_f000;

/// The entry maps something.
pub const PRESENT: u64 = 0x01;

/// The entry maps a large page instead of a table.
pub const HUGE_PAGE: u64 = 0x80;

/// A page table of the `x86_64` crate, opaque but for the words named by
/// [`table_words`].
#[verifier::external_type_specification]
#[verifier::external_body]
pub struct ExPageTable(x86_64::structures::paging::PageTable);

/// The 512 entries of a page table, as words.
pub uninterp spec fn table_words(t: PageTable) -> Seq<u64>;

/// Wraps `PageTableEntry::is_unused` on entry `i`: whether the entry is zero.
#[verifier::external_body]
fn entry_is_unused(t: &PageTable, i: usize) -> (r: bool)
    requires
        i < 512,
    ensures
        r == (table_words(*t)[i as int] == 0),
{
    t[i].is_unused()
}

/// Whether an entry maps a frame of its own: present, and not a large page.
pub open spec fn maps_frame(word: u64) -> bool {
    word & PRESENT != 0 && word & HUGE_PAGE == 0
}

/// Wraps `PageTableEntry::frame` on entry `i`: the address bits of an entry that
/// is present and maps no large page, nothing for any other.
#[verifier::external_body]
fn entry_frame(t: &PageTable, i: usize) -> (r: Option<u64>)
    requires
        i < 512,
    ensures
        r == if maps_frame(table_words(*t)[i as int]) {
            Some(table_words(*t)[i as int] & ADDR_MASK)
        } else {
            None
        },
{
    match t[i].frame() {
        Ok(f) => Some(f.start_address().as_u64()),
        Err(_) => None,
    }
}

/// Wraps `PageTableEntry::set_unused` on entry `i`: the entry becomes zero.
#[verifier::external_body]
fn clear_entry(t: &mut PageTable, i: usize)
    requires
        i < 512,
    ensures
        forall|j: int|
            0 <= j < 512 ==> #[trigger] table_words(*final(t))[j] == if j == i {
                0
            } else {
                table_words(*old(t))[j]
            },
{
    t[i].set_unused()
}

/// Wraps the assignment of a `clone` of one table's entry `i` to another's.
#[verifier::external_body]
fn copy_entry(t: &mut PageTable, from: &PageTable, i: usize)
    requires
        i < 512,
    ensures
        forall|j: int|
            0 <= j < 512 ==> #[trigger] table_words(*final(t))[j] == if j == i {
                table_words(*from)[j]
            } else {
                table_words(*old(t))[j]
            },
{
    t[i] = from[i].clone();
}

/// Let a new address space share the kernel half: entries 256 to 511 point at
/// the kernel's own lower-level tables.
pub fn share_kernel_half(t: &mut PageTable, kernel: &PageTable)
    ensures
        forall|j: int|
            0 <= j < 512 ==> #[trigger] table_words(*final(t))[j] == if j < 256 {
                table_words(*old(t))[j]
            } else {
                table_words(*kernel)[j]
            },
{
    let mut i: usize = 256;
    while i < 512
        invariant
            256 <= i <= 512,
            forall|j: int|
                0 <= j < 512 ==> #[trigger] table_words(*t)[j] == if 256 <= j < i {
                    table_words(*kernel)[j]
                } else {
                    table_words(*old(t))[j]
                },
        decreases 512 - i,
    {
        copy_entry(t, kernel, i);
        i = i + 1;
    }
}

/// The frames that the entries below `n` map, in order.
pub open spec fn mapped(words: Seq<u64>, n: int) -> Seq<u64>
    decreases n,
{
    if n <= 0 {
        Seq::empty()
    } else if maps_frame(words[n - 1]) {
        mapped(words, n - 1).push(words[n - 1] & ADDR_MASK)
    } else {
        mapped(words, n - 1)
    }
}

/// Tables and pages of an address space still to be given back: each with the
/// level of the table it is.
pub struct Teardown {
    pub work: Vec<(u64, u8)>,
}

/// The frames `list`, each a table of level `level`.
pub open spec fn at_level(list: Seq<u64>, level: u8) -> Seq<(u64, u8)> {
    list.map_values(|f: u64| (f, level))
}

impl Teardown {
    /// Start with a top-level table: take its user half out of it. The kernel
    /// half is shared and stays.
    pub fn free_user_half(pml4: &mut PageTable) -> (r: Self)
        ensures
            r.work@ == at_level(mapped(table_words(*old(pml4)), 256), 3),
            forall|j: int|
                0 <= j < 512 ==> #[trigger] table_words(*final(pml4))[j] == if j < 256 {
                    0
                } else {
                    table_words(*old(pml4))[j]
                },
    {
        let mut work: Vec<(u64, u8)> = Vec::new();
        let ghost w0 = table_words(*pml4);
        let mut i: usize = 0;
        assert(work@ =~= at_level(mapped(w0, 0), 3));
        while i < 256
            invariant
                i <= 256,
                w0 == table_words(*old(pml4)),
                work@ == at_level(mapped(w0, i as int), 3),
                forall|j: int|
                    0 <= j < 512 ==> #[trigger] table_words(*pml4)[j] == if j < i {
                        0
                    } else {
                        w0[j]
                    },
            decreases 256 - i,
        {
            assert(table_words(*pml4)[i as int] == w0[i as int]);
            if !entry_is_unused(pml4, i) {
                let f: Option<u64> = entry_frame(pml4, i);
                if let Some(frame) = f {
                    work.push((frame, 3));
                    assert(work@ =~= at_level(mapped(w0, i + 1), 3));
                }
                clear_entry(pml4, i);
            } else {
                proof {
                    lemma_zero_word(w0[i as int]);
                }
            }
            i = i + 1;
        }
        Teardown { work }
    }

    /// The table to look at next, and its level.
    pub fn next(&self) -> (r: Option<(u64, u8)>)
        ensures
            r == if self.work@.len() == 0 {
                None
            } else {
                Some(self.work@.last())
            },
    {
        if self.work.len() == 0 {
            None
        } else {
            Some(self.work[self.work.len() - 1])
        }
    }

    /// Take in the table [`Teardown::next`] named. Returns the frames to give
    /// back: the table itself, and the pages it maps if it is of the lowest
    /// level. The tables it points at are left to be looked at.
    pub fn visit(&mut self, table: &PageTable) -> (r: Vec<u64>)
        requires
            old(self).work@.len() > 0,
        ensures
            visited(old(self).work@, table_words(*table), final(self).work@, r@),
    {
        let mut out: Vec<u64> = Vec::new();
        let ghost w0 = self.work@;
        let n: usize = self.work.len() - 1;
        let (frame, level) = self.work[n];
        let _ = self.work.pop();
        let ghost w1 = self.work@;
        let ghost words = table_words(*table);
        out.push(frame);
        let mut i: usize = 0;
        assert(w1 + at_level(mapped(words, 0), (level - 1) as u8) =~= w1);
        assert(seq![frame] + mapped(words, 0) =~= seq![frame]);
        while i < 512
            invariant
                i <= 512,
                words == table_words(*table),
                level > 1 ==> self.work@ == w1 + at_level(mapped(words, i as int), (level - 1) as u8)
                    && out@ == seq![frame],
                level <= 1 ==> self.work@ == w1 && out@ == seq![frame] + mapped(words, i as int),
            decreases 512 - i,
        {
            if !entry_is_unused(table, i) {
                let f: Option<u64> = entry_frame(table, i);
                if let Some(child) = f {
                    if level > 1 {
                        self.work.push((child, level - 1));
                        assert(self.work@ =~= w1 + at_level(mapped(words, i + 1), (level - 1) as u8));
                    } else {
                        out.push(child);
                        assert(out@ =~= seq![frame] + mapped(words, i + 1));
                    }
                }
            } else {
                proof {
                    lemma_zero_word(words[i as int]);
                }
            }
            i = i + 1;
        }
        out
    }
}

proof fn lemma_zero_word(w: u64)
    ensures
        w == 0 ==> !maps_frame(w),
{
    assert(0u64 & 0x01 == 0) by (bit_vector);
}

/// One step of a teardown: the last table of `w0`, whose entries are `words`, is
/// taken off; `freed` is given back, `w1` is left.
pub open spec fn visited(
    w0: Seq<(u64, u8)>,
    words: Seq<u64>,
    w1: Seq<(u64, u8)>,
    freed: Seq<u64>,
) -> bool {
    let (frame, level) = w0.last();
    let kids = mapped(words, 512);
    if level > 1 {
        &&& w1 == w0.drop_last() + at_level(kids, (level - 1) as u8)
        &&& freed == seq![frame]
    } else {
        &&& w1 == w0.drop_last()
        &&& freed == seq![frame] + kids
    }
}

/// Everything below and including a table of a given level, in a memory where
/// `mem` gives the entries of the table in each frame.
pub open spec fn below(mem: spec_fn(u64) -> Seq<u64>, frame: u64, level: nat) -> Multiset<u64>
    decreases level, 0int,
{
    let kids = mapped(mem(frame), 512);
    if level <= 1 {
        kids.to_multiset().insert(frame)
    } else {
        below_all(mem, kids, (level - 1) as nat, kids.len() as int).insert(frame)
    }
}

/// Everything below and including the first `n` tables of a list.
pub open spec fn below_all(mem: spec_fn(u64) -> Seq<u64>, list: Seq<u64>, level: nat, n: int) -> Multiset<
    u64,
>
    decreases level, n + 1,
{
    if n <= 0 {
        Multiset::empty()
    } else {
        below_all(mem, list, level, n - 1).add(below(mem, list[n - 1], level))
    }
}

/// Everything that a work list stands for.
pub open spec fn owed(mem: spec_fn(u64) -> Seq<u64>, work: Seq<(u64, u8)>) -> Multiset<u64>
    decreases work.len(),
{
    if work.len() == 0 {
        Multiset::empty()
    } else {
        owed(mem, work.drop_last()).add(below(mem, work.last().0, work.last().1 as nat))
    }
}

/// A teardown gives back every table and page of the user half exactly as often
/// as it is reached: each step gives back a part of what was owed and leaves
/// the rest owed.
pub proof fn lemma_teardown_step(
    mem: spec_fn(u64) -> Seq<u64>,
    w0: Seq<(u64, u8)>,
    w1: Seq<(u64, u8)>,
    freed: Seq<u64>,
)
    requires
        w0.len() > 0,
        visited(w0, mem(w0.last().0), w1, freed),
    ensures
        owed(mem, w0) =~= freed.to_multiset().add(owed(mem, w1)),
{
    let (frame, level) = w0.last();
    let kids = mapped(mem(frame), 512);
    broadcast use vstd::multiset::group_multiset_properties;
    broadcast use vstd::seq_lib::group_to_multiset_ensures;

    if level > 1 {
        lemma_owed_more(mem, w0.drop_last(), kids, (level - 1) as u8, kids.len() as int);
        assert(at_level(kids, (level - 1) as u8).subrange(0, kids.len() as int) =~= at_level(
            kids,
            (level - 1) as u8,
        ));
        assert(seq![frame].to_multiset() =~= Multiset::singleton(frame)) by {
            assert(seq![frame] =~= Seq::empty().push(frame));
        }
    } else {
        assert(seq![frame] + kids =~= seq![frame].add(kids));
        vstd::seq_lib::lemma_multiset_commutative(seq![frame], kids);
        assert(seq![frame].to_multiset() =~= Multiset::singleton(frame)) by {
            assert(seq![frame] =~= Seq::empty().push(frame));
        }
    }
}

proof fn lemma_owed_more(
    mem: spec_fn(u64) -> Seq<u64>,
    work: Seq<(u64, u8)>,
    list: Seq<u64>,
    level: u8,
    n: int,
)
    requires
        0 <= n <= list.len(),
    ensures
        owed(mem, work + at_level(list, level).subrange(0, n)) =~= owed(mem, work).add(
            below_all(mem, list, level as nat, n),
        ),
    decreases n,
{
    broadcast use vstd::multiset::group_multiset_properties;

    let more = at_level(list, level);
    if n == 0 {
        assert(work + more.subrange(0, 0) =~= work);
    } else {
        lemma_owed_more(mem, work, list, level, n - 1);
        let w = work + more.subrange(0, n);
        assert(w.drop_last() =~= work + more.subrange(0, n - 1));
        assert(w.last() == (list[n - 1], level));
    }
}

/// Bytes that can be copied at `va` without leaving its page, at most `left`.
pub open spec fn chunk(va: int, left: int) -> int {
    let room = 4096 - va % 4096;
    if room < left {
        room
    } else {
        left
    }
}

/// Pieces of the range of `len` bytes at `va`, none of which crosses a page.
pub open spec fn chunks(va: int, len: int) -> Seq<(u64, u64)>
    decreases len,
{
    if len <= 0 {
        Seq::empty()
    } else {
        let n = chunk(va, len);
        seq![(va as u64, n as u64)] + chunks(va + n, len - n)
    }
}

/// The pieces in which a range of user memory is copied, page by page.
pub fn page_chunks(va: u64, len: u64) -> (r: Vec<(u64, u64)>)
    requires
        va + len <= u64::MAX,
    ensures
        r@ == chunks(va as int, len as int),
{
    let mut out: Vec<(u64, u64)> = Vec::new();
    let mut at: u64 = va;
    let end: u64 = va + len;
    let ghost all = chunks(va as int, len as int);
    assert(out@ + all =~= all);
    while at < end
        invariant
            va <= at <= end,
            end == va + len,
            all == chunks(va as int, len as int),
            out@ + chunks(at as int, end - at) == all,
        decreases end - at,
    {
        let room: u64 = 4096 - at % 4096;
        let n: u64 = if room < end - at {
            room
        } else {
            end - at
        };
        let ghost before = out@;
        let ghost rest = chunks(at + n, end - at - n);
        out.push((at, n));
        assert(out@ + rest =~= before + (seq![(at, n)] + rest));
        at = at + n;
    }
    assert(out@ + Seq::<(u64, u64)>::empty() =~= out@);
    out
}

/// An entry maps a frame if its lowest bit is set and its bit 7 is not; the frame
/// is what its bits 12 to 51 say.
pub proof fn lemma_entry_bits(w: u64)
    ensures
        maps_frame(w) <==> w % 2 == 1 && w / 128 % 2 == 0,
        w & ADDR_MASK == w % 0x10_0000_0000_0000 - w % 4096,
{
    assert((w & 0x01 != 0 <==> w % 2 == 1) && (w & 0x80 == 0 <==> w / 128 % 2 == 0) && w & 0x000f_ffff_ffff_f000 == w
        % 0x10_0000_0000_0000 - w % 4096) by (bit_vector);
}

/// The frames of a table are those of its entries that map one, each once and in
/// order. `at` is the entry of each.
pub proof fn lemma_mapped(words: Seq<u64>, n: int) -> (at: Seq<int>)
    ensures
        at.len() == mapped(words, n).len(),
        forall|k: int|
            #![trigger at[k]]
            0 <= k < at.len() ==> {
                let w = words[at[k]];
                &&& 0 <= at[k] < n
                &&& w % 2 == 1 && w / 128 % 2 == 0
                &&& mapped(words, n)[k] == w % 0x10_0000_0000_0000 - w % 4096
            },
        forall|j: int, k: int| #![trigger at[j], at[k]] 0 <= j < k < at.len() ==> at[j] < at[k],
        forall|i: int|
            0 <= i < n && (#[trigger] words[i]) % 2 == 1 && words[i] / 128 % 2 == 0 ==> at.contains(i),
    decreases n,
{
    if n <= 0 {
        Seq::empty()
    } else {
        let less = lemma_mapped(words, n - 1);
        lemma_entry_bits(words[n - 1]);
        if maps_frame(words[n - 1]) {
            let at = less.push(n - 1);
            assert forall|i: int|
                0 <= i < n && (#[trigger] words[i]) % 2 == 1 && words[i] / 128 % 2 == 0 implies at.contains(i) by {
                if i < n - 1 {
                    let m = choose|m: int| 0 <= m < less.len() && less[m] == i;
                    assert(at[m] == i);
                } else {
                    assert(at[less.len() as int] == i);
                }
            }
            at
        } else {
            less
        }
    }
}

/// The pieces of a range follow each other without gap or overlap from its start
/// to its end, none is empty, and none crosses a page.
pub proof fn lemma_chunks(va: int, len: int, k: int)
    requires
        0 <= va,
        0 < len,
        va + len <= u64::MAX,
    ensures
        chunks(va, len).len() > 0,
        chunks(va, len)[0].0 == va,
        chunks(va, len).last().0 + chunks(va, len).last().1 == va + len,
        0 <= k < chunks(va, len).len() ==> {
            let (at, n) = chunks(va, len)[k];
            &&& 0 < n
            &&& at as int / 4096 == (at + n - 1) / 4096
            &&& k + 1 < chunks(va, len).len() ==> chunks(va, len)[k + 1].0 == at + n
        },
    decreases len,
{
    let n = chunk(va, len);
    let rest = chunks(va + n, len - n);
    let all = chunks(va, len);
    assert(all =~= seq![(va as u64, n as u64)] + rest);
    if len > n {
        lemma_chunks(va + n, len - n, k - 1);
        assert(all.last() == rest.last());
        if k > 0 && k < all.len() {
            assert(all[k] == rest[k - 1]);
            if k + 1 < all.len() {
                assert(all[k + 1] == rest[k]);
            }
        } else if k == 0 {
            assert(all[1] == rest[0]);
        }
    } else {
        assert(rest.len() == 0);
    }
}

} // verus!
