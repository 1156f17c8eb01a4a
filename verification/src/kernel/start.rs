//! The address space of a new ring-3 task and the page that describes it.
use vstd::prelude::*;

use crate::bytes;
use crate::kernel::loader::USER_MAX;
use crate::kernel::services::USER_STACK_PAGES;
use crate::kernel::task::{TaskId, SHARED_LIMIT};
use crate::kernel::vmm::USER_STACK_TOP;
use crate::rt::info;
use crate::rt::info::{BootInfo, INFO_BASE, INFO_LAYOUT, INFO_MAGIC, INFO_SIZE, MAX_ARGS};

verus! {

/// Pages of a service's heap: 4 MiB.
pub const USER_HEAP_PAGES: u64 = 1024;

/// Pages of user memory, writable and not executable.
#[derive(Clone, Copy, Debug, PartialEq, Eq, Structural)]
pub struct Region {
    pub base: u64,
    pub pages: u64,
}

impl Region {
    pub open spec fn end(self) -> int {
        self.base + self.pages * 4096
    }

    /// No byte belongs to both.
    pub open spec fn apart(self, other: Region) -> bool {
        self.end() <= other.base || other.end() <= self.base
    }
}

/// What a new address space has besides its image: the stack, the heap, and the
/// boot info page.
pub open spec fn regions_of(heap_base: u64) -> Seq<Region> {
    seq![
        Region {
            base: (USER_STACK_TOP - USER_STACK_PAGES * 4096) as u64,
            pages: USER_STACK_PAGES,
        },
        Region { base: heap_base, pages: USER_HEAP_PAGES },
        Region { base: INFO_BASE, pages: 1 },
    ]
}

pub fn regions(heap_base: u64) -> (r: [Region; 3])
    ensures
        r@ == regions_of(heap_base),
{
    let r: [Region; 3] = [
        Region { base: USER_STACK_TOP - 16 * 4096, pages: USER_STACK_PAGES },
        Region { base: heap_base, pages: USER_HEAP_PAGES },
        Region { base: INFO_BASE, pages: 1 },
    ];
    assert(r@ =~= regions_of(heap_base));
    r
}

/// Stack, heap and boot info page are apart from each other, from every image
/// segment and from the part where memory objects are mapped, wherever the heap
/// is between the images and the boot info page and outside that part.
pub proof fn lemma_regions_apart(heap_base: u64, i: int, j: int)
    requires
        0 <= i < j < 3,
        USER_MAX <= heap_base,
        heap_base + USER_HEAP_PAGES * 4096 <= INFO_BASE,
    ensures
        regions_of(heap_base)[i].apart(regions_of(heap_base)[j]),
        regions_of(heap_base)[i].base >= USER_MAX,
        regions_of(heap_base)[j].base >= USER_MAX,
        regions_of(heap_base)[i].base >= SHARED_LIMIT,
        regions_of(heap_base)[j].base >= SHARED_LIMIT,
        regions_of(heap_base)[i].end() <= USER_STACK_TOP,
        regions_of(heap_base)[j].end() <= USER_STACK_TOP,
{
}

/// What the supervisor says of a new task.
pub open spec fn info_for(id: TaskId, heap_base: u64, args: Seq<u8>) -> BootInfo {
    BootInfo {
        magic: INFO_MAGIC,
        layout: INFO_LAYOUT,
        task_id: id,
        _pad: 0,
        heap_base,
        heap_size: (USER_HEAP_PAGES * 4096) as u64,
        stack_top: USER_STACK_TOP,
        arg_len: kept_args(args).len() as u64,
    }
}

/// The launch arguments as far as the page has room for them.
pub open spec fn kept_args(args: Seq<u8>) -> Seq<u8> {
    if args.len() < MAX_ARGS {
        args
    } else {
        args.take(MAX_ARGS as int)
    }
}

proof fn lemma_same_record(a: Seq<u8>, b: Seq<u8>)
    requires
        a.len() == INFO_SIZE,
        b.len() >= INFO_SIZE,
        forall|i: int| 0 <= i < INFO_SIZE ==> #[trigger] b[i] == a[i],
    ensures
        info::info_record(a) == info::info_record(b),
{
}

/// The record that a boot info page starts with.
fn head_bytes(id: TaskId, heap_base: u64, arg_len: u64) -> (r: Vec<u8>)
    ensures
        r@.len() == INFO_SIZE,
        info::info_record(r@) == (BootInfo {
            magic: INFO_MAGIC,
            layout: INFO_LAYOUT,
            task_id: id,
            _pad: 0,
            heap_base,
            heap_size: (USER_HEAP_PAGES * 4096) as u64,
            stack_top: USER_STACK_TOP,
            arg_len,
        }),
{
    let words: [u64; 7] = [
        INFO_MAGIC,
        INFO_LAYOUT,
        id as u64,
        heap_base,
        0x40_0000,
        USER_STACK_TOP,
        arg_len,
    ];
    let out: Vec<u8> = bytes::words_to_bytes(&words);
    proof {
        let w = words@;
        bytes::lemma_words_bytes(w, 0);
        bytes::lemma_words_bytes(w, 1);
        bytes::lemma_words_bytes(w, 2);
        bytes::lemma_words_bytes(w, 3);
        bytes::lemma_words_bytes(w, 4);
        bytes::lemma_words_bytes(w, 5);
        bytes::lemma_words_bytes(w, 6);
    }
    out
}

/// Whether `page` is what a new task's boot info page starts with: heap and
/// stack bounds, the arguments its spawner attached, and a NUL.
pub open spec fn is_boot_page(page: Seq<u8>, id: TaskId, heap_base: u64, args: Seq<u8>) -> bool {
    &&& page.len() == INFO_SIZE + kept_args(args).len() + 1
    &&& info::info_of(page) == Some(info_for(id, heap_base, args))
    &&& page.subrange(INFO_SIZE as int, INFO_SIZE + kept_args(args).len()) == kept_args(args)
    &&& page.last() == 0
}

/// The start of a new task's boot info page.
pub fn boot_page(id: TaskId, heap_base: u64, args: &[u8]) -> (r: Vec<u8>)
    ensures
        is_boot_page(r@, id, heap_base, args@),
{
    assert(args.len() == args@.len());
    let n: usize = if args.len() < MAX_ARGS {
        args.len()
    } else {
        MAX_ARGS
    };
    let mut page: Vec<u8> = head_bytes(id, heap_base, n as u64);
    let ghost head = page@;
    assert(page@ =~= head + args@.take(0));
    let mut j: usize = 0;
    while j < n
        invariant
            j <= n <= args@.len(),
            args.len() == args@.len(),
            page@ == head + args@.take(j as int),
        decreases n - j,
    {
        page.push(args[j]);
        j = j + 1;
        assert(page@ =~= head + args@.take(j as int));
    }
    page.push(0);
    proof {
        let p = page@;
        assert(args@.take(n as int) =~= kept_args(args@));
        assert(p.subrange(INFO_SIZE as int, INFO_SIZE + kept_args(args@).len()) =~= kept_args(args@));
        lemma_same_record(head, p);
    }
    page
}

/// The launch arguments that a spawner attached are the ones the task reads: the
/// page as the supervisor fills it, followed by whatever else is on it.
pub proof fn lemma_args_arrive(page: Seq<u8>, id: TaskId, heap_base: u64, text: Seq<char>)
    requires
        vstd::utf8::encode_utf8(text).len() <= MAX_ARGS,
        text.len() > 0 ==> text.last() != '\0',
        page.len() >= INFO_SIZE + MAX_ARGS,
        info::info_of(page) == Some(info_for(id, heap_base, vstd::utf8::encode_utf8(text))),
        page.subrange(
            INFO_SIZE as int,
            INFO_SIZE + vstd::utf8::encode_utf8(text).len(),
        ) == vstd::utf8::encode_utf8(text),
    ensures
        info::args_text(page) == text,
{
    let b = vstd::utf8::encode_utf8(text);
    assert(kept_args(b) =~= b);
    vstd::utf8::encode_utf8_valid_utf8(text);
    vstd::utf8::encode_utf8_decode_utf8(text);
    assert(info::arg_bytes(page, info_for(id, heap_base, b)) =~= b);
    assert(text.subrange(0, text.len() as int) =~= text);
}

/// A task's stack is sixteen pages that end where user memory does, its heap four
/// MiB from where it was put, and its boot info a page of its own.
pub proof fn lemma_region_sizes(heap_base: u64)
    ensures
        regions_of(heap_base).len() == 3,
        regions_of(heap_base)[0].end() == 0x7fff_ffff_0000,
        regions_of(heap_base)[0].pages == 16,
        regions_of(heap_base)[1].base == heap_base,
        regions_of(heap_base)[1].pages * 4096 == 4 * 1024 * 1024,
        regions_of(heap_base)[2].base == 0x7fff_fffd_0000,
        regions_of(heap_base)[2].pages == 1,
{
}

/// What the page tells a task, byte by byte: who it is, where its heap is and how
/// large, where its stack ends, and its arguments, up to 1024 bytes of them.
pub proof fn lemma_page_tells(page: Seq<u8>, id: TaskId, heap_base: u64, args: Seq<u8>, i: int)
    requires
        is_boot_page(page, id, heap_base, args),
    ensures
        ({
            let n = if args.len() < 1024 {
                args.len() as int
            } else {
                1024
            };
            &&& crate::bytes::le_u32(page, 16) == id
            &&& crate::bytes::le_u64(page, 24) == heap_base
            &&& crate::bytes::le_u64(page, 32) == 4 * 1024 * 1024
            &&& crate::bytes::le_u64(page, 40) == 0x7fff_ffff_0000
            &&& crate::bytes::le_u64(page, 48) == n
            &&& page.len() == 56 + n + 1
            &&& 0 <= i < n ==> page[56 + i] == args[i]
            &&& page[56 + n] == 0
        }),
{
    let kept = kept_args(args);
    if 0 <= i < kept.len() {
        assert(page.subrange(INFO_SIZE as int, INFO_SIZE + kept.len())[i] == page[56 + i]);
    }
}

} // verus!
