//! The block list of a service heap: how blocks tile the heap range, and what
//! cutting, joining and releasing a block does to the list.
use vstd::prelude::*;

use crate::bytes;

verus! {

/// Payload alignment every service gets for free.
pub const ALIGN: u64 = 16;

/// Bytes a block header occupies: three words, padded to [`ALIGN`].
pub const HEADER: u64 = 32;

/// A tail too small to become a block of its own stays inside its predecessor.
pub const MIN_SPLIT: u64 = 48;

/// One block of the heap, header included.
#[verifier::ext_equal]
pub struct Block {
    pub addr: int,
    pub size: int,
    pub free: bool,
}

impl Block {
    /// First address past the block.
    pub open spec fn end(self) -> int {
        self.addr + self.size
    }

    /// The block's size word: the size with the free flag in bit 0.
    pub open spec fn size_flags(self) -> int {
        self.size + if self.free {
            1int
        } else {
            0
        }
    }
}

/// The word at address `a` of a heap that starts at `base`.
pub closed spec fn word(mem: Seq<u8>, base: int, a: int) -> int {
    bytes::le_u64(mem, a - base) as int
}

/// The blocks lie in address order, without gaps or overlaps, and cover the
/// `len` bytes from `base` (all of them, up to an odd last byte).
#[verifier::opaque]
pub open spec fn tiles(base: int, len: int, blocks: Seq<Block>) -> bool {
    &&& blocks.len() > 0
    &&& 0 < base
    &&& base % 16 == 0
    &&& base + len <= u64::MAX
    &&& blocks[0].addr == base
    &&& blocks.last().end() == base + len - len % 2
    &&& forall|i: int|
        0 <= i < blocks.len() ==> {
            &&& #[trigger] blocks[i].size >= MIN_SPLIT
            &&& blocks[i].size % 2 == 0
            &&& blocks[i].addr % 16 == 0
        }
    &&& forall|i: int, j: int|
        #![trigger blocks[i], blocks[j]]
        0 <= i < blocks.len() && j == i + 1 && j < blocks.len() ==> blocks[i].end() == blocks[j].addr
    &&& forall|i: int, j: int|
        #![trigger blocks[i], blocks[j]]
        0 <= i < j < blocks.len() ==> blocks[i].end() <= blocks[j].addr
}

/// Address of the block after `i`, or 0 at the end of the list.
pub open spec fn next_addr(blocks: Seq<Block>, i: int) -> int {
    if i + 1 < blocks.len() {
        blocks[i + 1].addr
    } else {
        0
    }
}

/// Address of the block before `i`, or 0 at the start of the list.
pub open spec fn prev_addr(blocks: Seq<Block>, i: int) -> int {
    if i > 0 {
        blocks[i - 1].addr
    } else {
        0
    }
}

/// The header stored in front of block `i` says what the list says.
pub open spec fn header_ok(mem: Seq<u8>, base: int, blocks: Seq<Block>, i: int) -> bool {
    &&& word(mem, base, blocks[i].addr) == blocks[i].size_flags()
    &&& word(mem, base, blocks[i].addr + 8) == next_addr(blocks, i)
    &&& word(mem, base, blocks[i].addr + 16) == prev_addr(blocks, i)
}

/// Every header in memory agrees with the list.
pub open spec fn linked(mem: Seq<u8>, base: int, blocks: Seq<Block>) -> bool {
    forall|i: int| 0 <= i < blocks.len() ==> #[trigger] header_ok(mem, base, blocks, i)
}

/// The memory from `base` holds exactly this block list.
pub open spec fn list_ok(mem: Seq<u8>, base: int, blocks: Seq<Block>) -> bool {
    tiles(base, mem.len() as int, blocks) && linked(mem, base, blocks)
}

/// What a block adds to a total: its size, or one, if it is allocated.
pub open spec fn weight(b: Block, bytes: bool) -> int {
    if b.free {
        0
    } else if bytes {
        b.size
    } else {
        1
    }
}

/// Bytes in allocated blocks, or their number.
pub open spec fn total(blocks: Seq<Block>, bytes: bool) -> int
    decreases blocks.len(),
{
    if blocks.len() == 0 {
        0
    } else {
        total(blocks.drop_last(), bytes) + weight(blocks.last(), bytes)
    }
}

/// Bytes held by allocated blocks.
pub open spec fn used_bytes(blocks: Seq<Block>) -> int {
    total(blocks, true)
}

/// Number of allocated blocks.
pub open spec fn used_count(blocks: Seq<Block>) -> int {
    total(blocks, false)
}

/// The first free block from `i` on that holds `need` bytes, or the length of
/// the list when there is none.
pub open spec fn fit_from(blocks: Seq<Block>, need: int, i: int) -> int
    decreases blocks.len() - i,
{
    if i >= blocks.len() {
        blocks.len() as int
    } else if blocks[i].free && blocks[i].size >= need {
        i
    } else {
        fit_from(blocks, need, i + 1)
    }
}

/// First fit.
pub open spec fn first_fit(blocks: Seq<Block>, need: int) -> int {
    fit_from(blocks, need, 0)
}

/// Block `i` allocated and cut down to `keep` bytes, the rest left behind as a
/// free block when it is big enough to be one.
pub open spec fn cut(blocks: Seq<Block>, i: int, keep: int) -> Seq<Block> {
    let b = blocks[i];
    if b.size - keep >= MIN_SPLIT {
        blocks.update(i, Block { addr: b.addr, size: keep, free: false }).insert(
            i + 1,
            Block { addr: b.addr + keep, size: b.size - keep, free: true },
        )
    } else {
        blocks.update(i, Block { addr: b.addr, size: b.size, free: false })
    }
}

/// Where block `j` stands once block `i` has been cut.
pub open spec fn shifted(blocks: Seq<Block>, i: int, keep: int, j: int) -> int {
    if j > i && blocks[i].size - keep >= MIN_SPLIT {
        j + 1
    } else {
        j
    }
}

/// Block `i` swallows its successor.
pub open spec fn join(blocks: Seq<Block>, i: int) -> Seq<Block> {
    blocks.update(
        i,
        Block {
            addr: blocks[i].addr,
            size: blocks[i].size + blocks[i + 1].size,
            free: blocks[i].free,
        },
    ).remove(i + 1)
}

/// Block `i` with its free flag set.
pub open spec fn freed(blocks: Seq<Block>, i: int) -> Seq<Block> {
    blocks.update(i, Block { addr: blocks[i].addr, size: blocks[i].size, free: true })
}

/// Block `i` joined with its successor if that one is free.
pub open spec fn join_if_free(blocks: Seq<Block>, i: int) -> Seq<Block> {
    if 0 <= i && i + 1 < blocks.len() && blocks[i + 1].free {
        join(blocks, i)
    } else {
        blocks
    }
}

/// Block `i` released and merged with its free neighbours.
pub open spec fn given(blocks: Seq<Block>, i: int) -> Seq<Block> {
    let s = join_if_free(freed(blocks, i), i);
    if i > 0 && s[i - 1].free {
        join(s, i - 1)
    } else {
        s
    }
}

/// No two neighbouring blocks are both free.
pub open spec fn coalesced(blocks: Seq<Block>) -> bool {
    forall|i: int, j: int|
        #![trigger blocks[i], blocks[j]]
        0 <= i < blocks.len() && j == i + 1 && j < blocks.len() ==> !(blocks[i].free && blocks[j].free)
}

/// Every byte past the three header words of an allocated block other than
/// `except` is the same in both memories.
pub open spec fn payloads_kept(
    old_mem: Seq<u8>,
    new_mem: Seq<u8>,
    base: int,
    blocks: Seq<Block>,
    except: int,
) -> bool {
    forall|j: int, a: int|
        #![trigger blocks[j], new_mem[a]]
        0 <= j < blocks.len() && j != except && !blocks[j].free && blocks[j].addr + 24 <= base + a
            < blocks[j].end() && 0 <= a < old_mem.len() ==> new_mem[a] == old_mem[a]
}

pub proof fn lemma_fit_from(blocks: Seq<Block>, need: int, i: int)
    requires
        0 <= i <= blocks.len(),
    ensures
        i <= fit_from(blocks, need, i) <= blocks.len(),
        fit_from(blocks, need, i) < blocks.len() ==> blocks[fit_from(blocks, need, i)].free
            && blocks[fit_from(blocks, need, i)].size >= need,
        forall|k: int|
            i <= k < fit_from(blocks, need, i) ==> !(#[trigger] blocks[k].free && blocks[k].size >= need),
    decreases blocks.len() - i,
{
    if i < blocks.len() && !(blocks[i].free && blocks[i].size >= need) {
        lemma_fit_from(blocks, need, i + 1);
    }
}

pub proof fn lemma_total_bounds(blocks: Seq<Block>, base: int)
    requires
        blocks.len() > 0 ==> base <= blocks[0].addr,
        forall|i: int| 0 <= i < blocks.len() ==> #[trigger] blocks[i].size >= 1,
        forall|i: int, j: int|
            #![trigger blocks[i], blocks[j]]
            0 <= i < blocks.len() && j == i + 1 && j < blocks.len() ==> blocks[i].end() <= blocks[j].addr,
    ensures
        0 <= used_count(blocks) <= used_bytes(blocks),
        used_count(blocks) <= blocks.len(),
        blocks.len() > 0 ==> used_bytes(blocks) <= blocks.last().end() - base,
    decreases blocks.len(),
{
    if blocks.len() > 0 {
        let p = blocks.drop_last();
        assert forall|i: int, j: int|
            #![trigger p[i], p[j]]
            0 <= i < p.len() && j == i + 1 && j < p.len() implies p[i].end() <= p[j].addr by {
            assert(p[i] == blocks[i] && p[j] == blocks[j]);
        }
        lemma_total_bounds(p, base);
        if p.len() > 0 {
            assert(p.last() == blocks[blocks.len() - 2]);
            assert(blocks[blocks.len() - 2].end() <= blocks[blocks.len() - 1].addr);
        }
    }
}

pub proof fn lemma_total_update(blocks: Seq<Block>, bytes: bool, i: int, b: Block)
    requires
        0 <= i < blocks.len(),
    ensures
        total(blocks.update(i, b), bytes) == total(blocks, bytes) - weight(blocks[i], bytes) + weight(
            b,
            bytes,
        ),
    decreases blocks.len(),
{
    let u = blocks.update(i, b);
    if i == blocks.len() - 1 {
        assert(u.drop_last() =~= blocks.drop_last());
    } else {
        assert(u.drop_last() =~= blocks.drop_last().update(i, b));
        lemma_total_update(blocks.drop_last(), bytes, i, b);
    }
}

pub proof fn lemma_total_insert(blocks: Seq<Block>, bytes: bool, i: int, b: Block)
    requires
        0 <= i <= blocks.len(),
    ensures
        total(blocks.insert(i, b), bytes) == total(blocks, bytes) + weight(b, bytes),
    decreases blocks.len(),
{
    let u = blocks.insert(i, b);
    if i == blocks.len() {
        assert(u.drop_last() =~= blocks);
    } else {
        assert(u.drop_last() =~= blocks.drop_last().insert(i, b));
        lemma_total_insert(blocks.drop_last(), bytes, i, b);
    }
}

pub proof fn lemma_total_remove(blocks: Seq<Block>, bytes: bool, i: int)
    requires
        0 <= i < blocks.len(),
    ensures
        total(blocks.remove(i), bytes) == total(blocks, bytes) - weight(blocks[i], bytes),
{
    assert(blocks.remove(i).insert(i, blocks[i]) =~= blocks);
    lemma_total_insert(blocks.remove(i), bytes, i, blocks[i]);
}

/// What cutting a block does to the totals.
proof fn lemma_cut_totals(blocks: Seq<Block>, i: int, keep: int)
    requires
        0 <= i < blocks.len(),
    ensures
        used_count(cut(blocks, i, keep)) == used_count(blocks) + if blocks[i].free {
            1int
        } else {
            0
        },
        used_bytes(cut(blocks, i, keep)) == used_bytes(blocks) - weight(blocks[i], true) + cut(
            blocks,
            i,
            keep,
        )[i].size,
{
    let b = blocks[i];
    if b.size - keep >= MIN_SPLIT {
        let h = Block { addr: b.addr, size: keep, free: false };
        let t = Block { addr: b.addr + keep, size: b.size - keep, free: true };
        let u = blocks.update(i, h);
        lemma_total_update(blocks, true, i, h);
        lemma_total_update(blocks, false, i, h);
        lemma_total_insert(u, true, i + 1, t);
        lemma_total_insert(u, false, i + 1, t);
    } else {
        let h = Block { addr: b.addr, size: b.size, free: false };
        lemma_total_update(blocks, true, i, h);
        lemma_total_update(blocks, false, i, h);
    }
}

/// A block cut in two tiles what it covered.
#[verifier::spinoff_prover]
#[verifier::rlimit(40)]
proof fn lemma_split_tiles(base: int, len: int, blocks: Seq<Block>, i: int, keep: int)
    requires
        tiles(base, len, blocks),
        0 <= i < blocks.len(),
        keep % 16 == 0,
        MIN_SPLIT <= keep,
        blocks[i].size - keep >= MIN_SPLIT,
    ensures
        tiles(base, len, cut(blocks, i, keep)),
{
    reveal(tiles);
    let b = blocks[i];
    let h = Block { addr: b.addr, size: keep, free: false };
    let t = Block { addr: b.addr + keep, size: b.size - keep, free: true };
    let r = cut(blocks, i, keep);
    assert forall|k: int|
        0 <= k < r.len() implies #[trigger] r[k] == (if k < i {
        blocks[k]
    } else if k == i {
        h
    } else if k == i + 1 {
        t
    } else {
        blocks[k - 1]
    }) by {}
    assert forall|p: int, q: int|
        #![trigger r[p], r[q]]
        0 <= p < q < r.len() implies r[p].end() <= r[q].addr by {
        let pp = if p <= i {
            p
        } else {
            p - 1
        };
        let qq = if q <= i {
            q
        } else {
            q - 1
        };
        if pp < qq {
            assert(blocks[pp].end() <= blocks[qq].addr);
        }
    }
    assert forall|p: int, q: int|
        #![trigger r[p], r[q]]
        0 <= p < r.len() && q == p + 1 && q < r.len() implies r[p].end() == r[q].addr by {
        if p < i {
            assert(blocks[p].end() == blocks[p + 1].addr);
        } else if p > i + 1 {
            assert(blocks[p - 1].end() == blocks[p].addr);
        } else if p == i + 1 {
            assert(blocks[i].end() == blocks[i + 1].addr);
        }
    }
}

/// Cutting a block keeps the tiling.
#[verifier::spinoff_prover]
pub proof fn lemma_cut(base: int, len: int, blocks: Seq<Block>, i: int, keep: int)
    requires
        tiles(base, len, blocks),
        0 <= i < blocks.len(),
        keep % 16 == 0,
        MIN_SPLIT <= keep <= blocks[i].size,
    ensures
        tiles(base, len, cut(blocks, i, keep)),
        used_count(cut(blocks, i, keep)) == used_count(blocks) + if blocks[i].free {
            1int
        } else {
            0
        },
        used_bytes(cut(blocks, i, keep)) == used_bytes(blocks) - weight(blocks[i], true) + cut(
            blocks,
            i,
            keep,
        )[i].size,
{
    lemma_cut_totals(blocks, i, keep);
    let b = blocks[i];
    if b.size - keep >= MIN_SPLIT {
        lemma_split_tiles(base, len, blocks, i, keep);
    } else {
        reveal(tiles);
        let r = cut(blocks, i, keep);
        assert forall|p: int, q: int|
            #![trigger r[p], r[q]]
            0 <= p < q < r.len() implies r[p].end() <= r[q].addr by {
            assert(blocks[p].end() <= blocks[q].addr);
        }
        assert forall|p: int, q: int|
            #![trigger r[p], r[q]]
            0 <= p < r.len() && q == p + 1 && q < r.len() implies r[p].end() == r[q].addr by {
            assert(blocks[p].end() == blocks[q].addr);
        }
    }
}

/// Joining a block with a free successor keeps the tiling.
pub proof fn lemma_join(base: int, len: int, blocks: Seq<Block>, i: int)
    requires
        tiles(base, len, blocks),
        0 <= i,
        i + 1 < blocks.len(),
        blocks[i + 1].free,
    ensures
        tiles(base, len, join(blocks, i)),
        used_count(join(blocks, i)) == used_count(blocks),
        used_bytes(join(blocks, i)) == used_bytes(blocks) + if blocks[i].free {
            0
        } else {
            blocks[i + 1].size
        },
{
    reveal(tiles);
    let m = Block {
        addr: blocks[i].addr,
        size: blocks[i].size + blocks[i + 1].size,
        free: blocks[i].free,
    };
    let u = blocks.update(i, m);
    lemma_total_update(blocks, true, i, m);
    lemma_total_update(blocks, false, i, m);
    lemma_total_remove(u, true, i + 1);
    lemma_total_remove(u, false, i + 1);
    let r = u.remove(i + 1);
    assert forall|k: int|
        0 <= k < r.len() implies #[trigger] r[k] == (if k < i {
        blocks[k]
    } else if k == i {
        m
    } else {
        blocks[k + 1]
    }) by {}
    assert(blocks[i].end() == blocks[i + 1].addr);
    assert forall|p: int, q: int|
        #![trigger r[p], r[q]]
        0 <= p < q < r.len() implies r[p].end() <= r[q].addr by {
        let pp = if p < i {
            p
        } else {
            p + 1
        };
        let qq = if q <= i {
            q
        } else {
            q + 1
        };
        assert(blocks[pp].end() <= blocks[qq].addr);
    }
    assert forall|p: int, q: int|
        #![trigger r[p], r[q]]
        0 <= p < r.len() && q == p + 1 && q < r.len() implies r[p].end() == r[q].addr by {
        if p < i {
            assert(blocks[p].end() == blocks[p + 1].addr);
        } else {
            assert(blocks[p + 1].end() == blocks[p + 2].addr);
        }
    }
}

/// Setting a free flag keeps the tiling.
pub proof fn lemma_freed(base: int, len: int, blocks: Seq<Block>, i: int)
    requires
        tiles(base, len, blocks),
        0 <= i < blocks.len(),
    ensures
        tiles(base, len, freed(blocks, i)),
        used_count(freed(blocks, i)) == used_count(blocks) - weight(blocks[i], false),
        used_bytes(freed(blocks, i)) == used_bytes(blocks) - weight(blocks[i], true),
{
    reveal(tiles);
    let f = Block { addr: blocks[i].addr, size: blocks[i].size, free: true };
    lemma_total_update(blocks, true, i, f);
    lemma_total_update(blocks, false, i, f);
    let r = freed(blocks, i);
    assert forall|p: int, q: int|
        #![trigger r[p], r[q]]
        0 <= p < q < r.len() implies r[p].end() <= r[q].addr by {
        assert(blocks[p].end() <= blocks[q].addr);
    }
    assert forall|p: int, q: int|
        #![trigger r[p], r[q]]
        0 <= p < r.len() && q == p + 1 && q < r.len() implies r[p].end() == r[q].addr by {
        assert(blocks[p].end() == blocks[q].addr);
    }
}

/// Every block of a tiling lies inside the heap, aligned and big enough.
pub proof fn lemma_tile(base: int, len: int, b: Seq<Block>, i: int)
    requires
        tiles(base, len, b),
        0 <= i < b.len(),
    ensures
        0 < base,
        base + len <= u64::MAX,
        b[0].addr == base,
        base <= b[i].addr,
        b[i].end() <= base + len,
        b[i].size >= MIN_SPLIT,
        b[i].addr % 16 == 0,
        b[i].size % 2 == 0,
{
    reveal(tiles);
    assert(b[i].size >= MIN_SPLIT);
    if i > 0 {
        assert(b[0].end() <= b[i].addr);
        assert(b[0].size >= MIN_SPLIT);
    }
    if i < b.len() - 1 {
        assert(b[i].end() <= b[b.len() - 1].addr);
        assert(b[b.len() - 1].size >= MIN_SPLIT);
    }
}

/// Blocks of a tiling do not overlap, and neighbours touch.
pub proof fn lemma_order(base: int, len: int, b: Seq<Block>, i: int, j: int)
    requires
        tiles(base, len, b),
        0 <= i < j < b.len(),
    ensures
        b[i].end() <= b[j].addr,
        j == i + 1 ==> b[i].end() == b[j].addr,
{
    reveal(tiles);
}

/// Read the word at `a`.
pub fn get_word(mem: &[u8], base: u64, a: u64) -> (r: u64)
    requires
        base <= a,
        a + 8 <= base + mem@.len(),
    ensures
        r == word(mem@, base as int, a as int),
{
    assert(mem.len() == mem@.len());
    bytes::get_u64(mem, (a - base) as usize)
}

/// Write the word at `a`.
pub fn put_word(mem: &mut [u8], base: u64, a: u64, v: u64)
    requires
        base <= a,
        a + 8 <= base + old(mem)@.len(),
    ensures
        final(mem)@.len() == old(mem)@.len(),
        word(final(mem)@, base as int, a as int) == v,
        forall|b: int|
            base <= b && b + 8 <= base + old(mem)@.len() && (b + 8 <= a || a + 8 <= b) ==> #[trigger] word(
                final(mem)@,
                base as int,
                b,
            ) == word(old(mem)@, base as int, b),
        forall|k: int|
            0 <= k < old(mem)@.len() && !(a <= base + k < a + 8) ==> final(mem)@[k] == old(mem)@[k],
{
    assert(mem.len() == mem@.len());
    let ghost before = mem@;
    bytes::put_u64(mem, (a - base) as usize, v);
    assert forall|b: int|
        base <= b && b + 8 <= base + before.len() && (b + 8 <= a || a + 8 <= b) implies #[trigger] word(
        mem@,
        base as int,
        b,
    ) == word(before, base as int, b) by {
        let o = b - base;
        assert(mem@.subrange(o, o + 8) =~= before.subrange(o, o + 8));
        bytes::lemma_le_u64_ext(mem@, o, before, o);
    }
}

/// Unchanged bytes spell unchanged words.
pub proof fn lemma_word_kept(m1: Seq<u8>, m2: Seq<u8>, base: int, a: int)
    requires
        m1.len() == m2.len(),
        base <= a,
        a + 8 <= base + m1.len(),
        forall|k: int| a <= base + k < a + 8 ==> m1[k] == m2[k],
    ensures
        word(m1, base, a) == word(m2, base, a),
{
    let o = a - base;
    assert(m1.subrange(o, o + 8) =~= m2.subrange(o, o + 8));
    bytes::lemma_le_u64_ext(m1, o, m2, o);
}

/// A service that writes only inside the payload area of one block leaves the
/// block list intact.
pub proof fn lemma_payload_write(m1: Seq<u8>, m2: Seq<u8>, base: int, b: Seq<Block>, i: int)
    requires
        list_ok(m1, base, b),
        0 <= i < b.len(),
        m1.len() == m2.len(),
        forall|k: int|
            0 <= k < m1.len() && m2[k] != #[trigger] m1[k] ==> b[i].addr + 24 <= base + k < b[i].end(),
    ensures
        list_ok(m2, base, b),
{
    assert forall|j: int| 0 <= j < b.len() implies #[trigger] header_ok(m2, base, b, j) by {
        assert(header_ok(m1, base, b, j));
        lemma_tile(base, m1.len() as int, b, j);
        lemma_tile(base, m1.len() as int, b, i);
        if j < i {
            lemma_order(base, m1.len() as int, b, j, i);
        } else if i < j {
            lemma_order(base, m1.len() as int, b, i, j);
        }
        lemma_word_kept(m1, m2, base, b[j].addr);
        lemma_word_kept(m1, m2, base, b[j].addr + 8);
        lemma_word_kept(m1, m2, base, b[j].addr + 16);
    }
}

/// A cut leaves every other block in the list.
pub proof fn lemma_cut_keeps(b: Seq<Block>, i: int, keep: int, j: int)
    requires
        0 <= i < b.len(),
        0 <= j < b.len(),
        j != i,
    ensures
        cut(b, i, keep).contains(b[j]),
{
    let r = cut(b, i, keep);
    if b[i].size - keep >= MIN_SPLIT && j > i {
        assert(r[j + 1] == b[j]);
    } else {
        assert(r[j] == b[j]);
    }
}

/// A join leaves every block but the two in the list.
pub proof fn lemma_join_keeps(b: Seq<Block>, i: int, j: int)
    requires
        0 <= i,
        i + 1 < b.len(),
        0 <= j < b.len(),
        j != i,
        j != i + 1,
    ensures
        join(b, i).contains(b[j]),
{
    let r = join(b, i);
    if j > i {
        assert(r[j - 1] == b[j]);
    } else {
        assert(r[j] == b[j]);
    }
}

/// A release leaves every other allocated block in the list.
pub proof fn lemma_given_keeps(b: Seq<Block>, i: int, j: int)
    requires
        0 <= i < b.len(),
        0 <= j < b.len(),
        j != i,
        !b[j].free,
    ensures
        given(b, i).contains(b[j]),
{
    let f = freed(b, i);
    assert(f[j] == b[j]);
    let s = join_if_free(f, i);
    if i + 1 < f.len() && f[i + 1].free {
        lemma_join_keeps(f, i, j);
    }
    assert(s.contains(b[j]));
    let k = choose|k: int| 0 <= k < s.len() && s[k] == b[j];
    if i > 0 && s[i - 1].free {
        assert(s[i].free);
        lemma_join_keeps(s, i - 1, k);
    }
}

/// Taking a free block keeps neighbouring free blocks apart.
pub proof fn lemma_cut_coalesced(b: Seq<Block>, i: int, keep: int)
    requires
        0 <= i < b.len(),
        b[i].free,
        coalesced(b),
    ensures
        coalesced(cut(b, i, keep)),
{
    let r = cut(b, i, keep);
    assert forall|p: int, q: int|
        #![trigger r[p], r[q]]
        0 <= p < r.len() && q == p + 1 && q < r.len() implies !(r[p].free && r[q].free) by {
        if b[i].size - keep >= MIN_SPLIT {
            if q < i {
                assert(!(b[p].free && b[q].free));
            } else if p == i + 1 {
                assert(!(b[i].free && b[i + 1].free));
            } else if p > i + 1 {
                assert(!(b[p - 1].free && b[p].free));
            }
        } else {
            assert(!(b[p].free && b[q].free));
        }
    }
}

/// Cutting an allocated block down keeps neighbouring free blocks apart, unless
/// something is left over beside a free block.
pub proof fn lemma_shrink_coalesced(b: Seq<Block>, i: int, keep: int)
    requires
        0 <= i < b.len(),
        !b[i].free,
        coalesced(b),
        !(i + 1 < b.len() && b[i + 1].free && b[i].size - keep >= MIN_SPLIT),
    ensures
        coalesced(cut(b, i, keep)),
{
    let r = cut(b, i, keep);
    assert forall|p: int, q: int|
        #![trigger r[p], r[q]]
        0 <= p < r.len() && q == p + 1 && q < r.len() implies !(r[p].free && r[q].free) by {
        if b[i].size - keep >= MIN_SPLIT {
            if q < i {
                assert(!(b[p].free && b[q].free));
            } else if p > i + 1 {
                assert(!(b[p - 1].free && b[p].free));
            }
        } else {
            assert(!(b[p].free && b[q].free));
        }
    }
}

/// Growing an allocated block into the free one after it keeps neighbouring free
/// blocks apart.
pub proof fn lemma_grow_coalesced(b: Seq<Block>, i: int, keep: int)
    requires
        0 <= i,
        i + 1 < b.len(),
        !b[i].free,
        b[i + 1].free,
        coalesced(b),
    ensures
        coalesced(cut(join(b, i), i, keep)),
{
    let g = join(b, i);
    assert forall|p: int, q: int|
        #![trigger g[p], g[q]]
        0 <= p < g.len() && q == p + 1 && q < g.len() implies !(g[p].free && g[q].free) by {
        if q < i {
            assert(!(b[p].free && b[q].free));
        } else if p > i {
            assert(!(b[p + 1].free && b[q + 1].free));
        }
    }
    if i + 1 < g.len() {
        assert(!(b[i + 1].free && b[i + 2].free));
        assert(g[i + 1] == b[i + 2]);
    }
    lemma_shrink_coalesced(g, i, keep);
}

/// Releasing a block merges it with both neighbours, so no two free blocks end
/// up side by side.
pub proof fn lemma_given_coalesced(b: Seq<Block>, i: int)
    requires
        0 <= i < b.len(),
        !b[i].free,
        coalesced(b),
    ensures
        coalesced(given(b, i)),
{
    let r = given(b, i);
    let f = freed(b, i);
    let up = i + 1 < b.len() && b[i + 1].free;
    let down = i > 0 && b[i - 1].free;
    let s = join_if_free(f, i);
    assert forall|k: int| 0 <= k < s.len() implies #[trigger] s[k].free == (if k == i {
        true
    } else if k < i || !up {
        b[k].free
    } else {
        b[k + 1].free
    }) by {}
    assert forall|p: int, q: int|
        #![trigger r[p], r[q]]
        0 <= p < r.len() && q == p + 1 && q < r.len() implies !(r[p].free && r[q].free) by {
        let d: int = if up {
            1
        } else {
            0
        };
        let e: int = if down {
            1
        } else {
            0
        };
        let m = i - e;
        assert(r[p].free == (if p < m {
            s[p].free
        } else if p == m {
            true
        } else {
            s[p + e].free
        }));
        assert(r[q].free == (if q < m {
            s[q].free
        } else if q == m {
            true
        } else {
            s[q + e].free
        }));
        if q < m {
            assert(!(b[p].free && b[q].free));
        } else if q == m {
            if down {
                assert(!(b[i - 2].free && b[i - 1].free));
            }
        } else if p == m {
            if up {
                assert(!(b[i + 1].free && b[i + 2].free));
            }
        } else {
            assert(!(b[p + e + d].free && b[q + e + d].free));
        }
    }
}

/// Releasing a block undoes taking it: the list is what it was before.
pub proof fn lemma_taken_and_given(b: Seq<Block>, i: int, keep: int)
    requires
        0 <= i < b.len(),
        b[i].free,
        coalesced(b),
    ensures
        given(cut(b, i, keep), i) == b,
{
    let c = cut(b, i, keep);
    let f = freed(c, i);
    let s = join_if_free(f, i);
    if i + 1 < b.len() {
        assert(!(b[i].free && b[i + 1].free));
    }
    if i > 0 {
        assert(!(b[i - 1].free && b[i].free));
    }
    assert(s =~= b);
}

/// A list without allocated blocks and without neighbouring free blocks is one
/// free block over the whole range.
pub proof fn lemma_all_free(base: int, len: int, b: Seq<Block>)
    requires
        tiles(base, len, b),
        coalesced(b),
        used_count(b) == 0,
    ensures
        b =~= seq![Block { addr: base, size: len - len % 2, free: true }],
{
    reveal(tiles);
    lemma_none_used(b);
    if b.len() > 1 {
        assert(b[0].free && b[1].free);
        assert(!(b[0].free && b[1].free));
    }
}

proof fn lemma_none_used(b: Seq<Block>)
    requires
        used_count(b) == 0,
    ensures
        forall|i: int| 0 <= i < b.len() ==> #[trigger] b[i].free,
    decreases b.len(),
{
    if b.len() > 0 {
        lemma_count_nonneg(b.drop_last());
        lemma_none_used(b.drop_last());
        assert forall|i: int| 0 <= i < b.len() implies #[trigger] b[i].free by {
            if i < b.len() - 1 {
                assert(b.drop_last()[i].free);
            }
        }
    }
}

proof fn lemma_count_nonneg(b: Seq<Block>)
    ensures
        used_count(b) >= 0,
    decreases b.len(),
{
    if b.len() > 0 {
        lemma_count_nonneg(b.drop_last());
    }
}

/// The totals of a tiling fit the range it covers.
pub proof fn lemma_tiled_totals(base: int, len: int, b: Seq<Block>)
    requires
        tiles(base, len, b),
    ensures
        0 <= used_count(b) <= used_bytes(b) <= len,
{
    reveal(tiles);
    lemma_total_bounds(b, base);
}

/// An allocated block is part of the totals.
pub proof fn lemma_weight_le(b: Seq<Block>, bytes: bool, i: int)
    requires
        0 <= i < b.len(),
        forall|k: int| 0 <= k < b.len() ==> #[trigger] b[k].size >= 0,
    ensures
        0 <= weight(b[i], bytes) <= total(b, bytes),
    decreases b.len(),
{
    if i < b.len() - 1 {
        lemma_weight_le(b.drop_last(), bytes, i);
        assert(b.drop_last()[i] == b[i]);
        assert(b[b.len() - 1].size >= 0);
    } else if b.len() > 1 {
        lemma_weight_le(b.drop_last(), bytes, 0);
        assert(b[i].size >= 0);
    } else {
        assert(total(b.drop_last(), bytes) == 0);
        assert(b[i].size >= 0);
    }
}

} // verus!
