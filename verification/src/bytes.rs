//! Little-endian words in byte buffers.
use vstd::prelude::*;

verus! {

/// The 16-bit little-endian word at `off`.
pub open spec fn le_u16(s: Seq<u8>, off: int) -> u16 {
    (s[off] + 0x100 * s[off + 1]) as u16
}

/// The 32-bit little-endian word at `off`.
pub open spec fn le_u32(s: Seq<u8>, off: int) -> u32 {
    (s[off] + 0x100 * s[off + 1] + 0x1_0000 * s[off + 2] + 0x100_0000 * s[off + 3]) as u32
}

/// The 64-bit little-endian word at `off`.
pub open spec fn le_u64(s: Seq<u8>, off: int) -> u64 {
    (le_u32(s, off) + 0x1_0000_0000 * le_u32(s, off + 4)) as u64
}

/// The four bytes of `v`, least significant first.
pub open spec fn le_bytes_u32(v: u32) -> Seq<u8> {
    seq![
        (v % 0x100) as u8,
        ((v / 0x100) % 0x100) as u8,
        ((v / 0x1_0000) % 0x100) as u8,
        (v / 0x100_0000) as u8,
    ]
}

/// The eight bytes of `v`, least significant first.
pub open spec fn le_bytes_u64(v: u64) -> Seq<u8> {
    le_bytes_u32((v % 0x1_0000_0000) as u32) + le_bytes_u32((v / 0x1_0000_0000) as u32)
}

/// A 32-bit word is what its bytes spell.
pub proof fn lemma_le_u32_of_bytes(v: u32)
    ensures
        le_bytes_u32(v).len() == 4,
        le_u32(le_bytes_u32(v), 0) == v,
{
    let v1: u32 = v / 0x100;
    let v2: u32 = v1 / 0x100;
    assert(v2 == v / 0x1_0000);
    assert(v2 / 0x100 == v / 0x100_0000);
}

/// A 64-bit word is what its bytes spell.
pub proof fn lemma_le_u64_of_bytes(v: u64)
    ensures
        le_bytes_u64(v).len() == 8,
        le_u64(le_bytes_u64(v), 0) == v,
{
    let lo = (v % 0x1_0000_0000) as u32;
    let hi = (v / 0x1_0000_0000) as u32;
    lemma_le_u32_of_bytes(lo);
    lemma_le_u32_of_bytes(hi);
    let b = le_bytes_u64(v);
    lemma_le_u32_ext(b, 0, le_bytes_u32(lo), 0);
    lemma_le_u32_ext(b, 4, le_bytes_u32(hi), 0);
}

/// A 32-bit word depends on its own four bytes alone.
pub proof fn lemma_le_u32_ext(a: Seq<u8>, i: int, b: Seq<u8>, j: int)
    requires
        0 <= i,
        i + 4 <= a.len(),
        0 <= j,
        j + 4 <= b.len(),
        a.subrange(i, i + 4) =~= b.subrange(j, j + 4),
    ensures
        le_u32(a, i) == le_u32(b, j),
{
    assert(a.subrange(i, i + 4)[0] == b.subrange(j, j + 4)[0]);
    assert(a.subrange(i, i + 4)[1] == b.subrange(j, j + 4)[1]);
    assert(a.subrange(i, i + 4)[2] == b.subrange(j, j + 4)[2]);
    assert(a.subrange(i, i + 4)[3] == b.subrange(j, j + 4)[3]);
}

/// A 64-bit word depends on its own eight bytes alone.
pub proof fn lemma_le_u64_ext(a: Seq<u8>, i: int, b: Seq<u8>, j: int)
    requires
        0 <= i,
        i + 8 <= a.len(),
        0 <= j,
        j + 8 <= b.len(),
        a.subrange(i, i + 8) =~= b.subrange(j, j + 8),
    ensures
        le_u64(a, i) == le_u64(b, j),
{
    let x = a.subrange(i, i + 8);
    let y = b.subrange(j, j + 8);
    assert(x[0] == y[0]);
    assert(x[1] == y[1]);
    assert(x[2] == y[2]);
    assert(x[3] == y[3]);
    assert(x[4] == y[4]);
    assert(x[5] == y[5]);
    assert(x[6] == y[6]);
    assert(x[7] == y[7]);
}

/// The 16-bit word at `off`.
pub fn get_u16(b: &[u8], off: usize) -> (r: u16)
    requires
        off + 2 <= b@.len(),
    ensures
        r == le_u16(b@, off as int),
{
    b[off] as u16 + 0x100 * (b[off + 1] as u16)
}

/// The 32-bit word at `off`.
pub fn get_u32(b: &[u8], off: usize) -> (r: u32)
    requires
        off + 4 <= b@.len(),
    ensures
        r == le_u32(b@, off as int),
{
    b[off] as u32 + 0x100 * (b[off + 1] as u32) + 0x1_0000 * (b[off + 2] as u32) + 0x100_0000 * (
    b[off + 3] as u32)
}

/// The 64-bit word at `off`.
pub fn get_u64(b: &[u8], off: usize) -> (r: u64)
    requires
        off + 8 <= b@.len(),
    ensures
        r == le_u64(b@, off as int),
{
    assert(b.len() == b@.len());
    get_u32(b, off) as u64 + 0x1_0000_0000 * (get_u32(b, off + 4) as u64)
}

/// Write the bytes of `v` at `off`.
pub fn put_u32(b: &mut [u8], off: usize, v: u32)
    requires
        off + 4 <= old(b)@.len(),
    ensures
        final(b)@.len() == old(b)@.len(),
        final(b)@.subrange(off as int, off + 4) == le_bytes_u32(v),
        forall|i: int| 0 <= i < old(b)@.len() && !(off <= i < off + 4) ==> final(b)@[i] == old(b)@[i],
{
    b[off] = (v % 0x100) as u8;
    b[off + 1] = ((v / 0x100) % 0x100) as u8;
    b[off + 2] = ((v / 0x1_0000) % 0x100) as u8;
    b[off + 3] = (v / 0x100_0000) as u8;
    assert(b@.subrange(off as int, off + 4) =~= le_bytes_u32(v));
}

/// Write the bytes of `v` at `off`.
pub fn put_u64(b: &mut [u8], off: usize, v: u64)
    requires
        off + 8 <= old(b)@.len(),
    ensures
        final(b)@.len() == old(b)@.len(),
        final(b)@.subrange(off as int, off + 8) == le_bytes_u64(v),
        le_u64(final(b)@, off as int) == v,
        forall|i: int| 0 <= i < old(b)@.len() && !(off <= i < off + 8) ==> final(b)@[i] == old(b)@[i],
{
    assert(b.len() == b@.len());
    put_u32(b, off, (v % 0x1_0000_0000) as u32);
    let ghost mid = b@;
    put_u32(b, off + 4, (v / 0x1_0000_0000) as u32);
    proof {
        assert(b@.subrange(off as int, off + 4) =~= mid.subrange(off as int, off + 4));
        assert(b@.subrange(off as int, off + 8) =~= b@.subrange(off as int, off + 4) + b@.subrange(
            off + 4,
            off + 8,
        ));
        lemma_le_u64_of_bytes(v);
        assert(le_bytes_u64(v).subrange(0, 8) =~= le_bytes_u64(v));
        lemma_le_u64_ext(b@, off as int, le_bytes_u64(v), 0);
    }
}

/// Position of the first `v` at or after `i`, or the length when there is none.
pub open spec fn find(s: Seq<u8>, v: u8, i: int) -> int
    decreases s.len() - i,
{
    if i >= s.len() {
        s.len() as int
    } else if s[i] == v {
        i
    } else {
        find(s, v, i + 1)
    }
}

/// `find` gives the first position, and only past the end none.
pub proof fn lemma_find(s: Seq<u8>, v: u8, i: int)
    requires
        0 <= i <= s.len(),
    ensures
        i <= find(s, v, i) <= s.len(),
        find(s, v, i) < s.len() ==> s[find(s, v, i)] == v,
        forall|k: int| i <= k < find(s, v, i) ==> #[trigger] s[k] != v,
    decreases s.len() - i,
{
    if i < s.len() && s[i] != v {
        lemma_find(s, v, i + 1);
    }
}

/// Position of the first `v` at or after `from`, or the length.
pub fn find_byte(b: &[u8], v: u8, from: usize) -> (r: usize)
    requires
        from <= b@.len(),
    ensures
        r == find(b@, v, from as int),
        from <= r <= b@.len(),
{
    let mut i: usize = from;
    assert(b.len() == b@.len());
    while i < b.len()
        invariant
            from <= i <= b@.len() == b.len(),
            find(b@, v, from as int) == find(b@, v, i as int),
        decreases b@.len() - i,
    {
        if b[i] == v {
            return i;
        }
        i = i + 1;
    }
    i
}

/// Add a 32-bit word to a buffer.
pub fn push_u32(out: &mut Vec<u8>, v: u32)
    ensures
        final(out)@ == old(out)@ + le_bytes_u32(v),
{
    out.push((v % 0x100) as u8);
    out.push(((v / 0x100) % 0x100) as u8);
    out.push(((v / 0x1_0000) % 0x100) as u8);
    out.push((v / 0x100_0000) as u8);
    assert(out@ =~= old(out)@ + le_bytes_u32(v));
}

/// Add a 64-bit word to a buffer.
pub fn push_u64(out: &mut Vec<u8>, v: u64)
    ensures
        final(out)@ == old(out)@ + le_bytes_u64(v),
{
    push_u32(out, (v % 0x1_0000_0000) as u32);
    push_u32(out, (v / 0x1_0000_0000) as u32);
    assert(out@ =~= old(out)@ + le_bytes_u64(v));
}

/// A word is found where its bytes were put.
pub proof fn lemma_u64_at(a: Seq<u8>, v: u64, b: Seq<u8>)
    ensures
        le_u64(a + le_bytes_u64(v) + b, a.len() as int) == v,
{
    lemma_le_u64_of_bytes(v);
    let s = a + le_bytes_u64(v) + b;
    assert(s.subrange(a.len() as int, a.len() as int + 8) =~= le_bytes_u64(v).subrange(0, 8));
    lemma_le_u64_ext(le_bytes_u64(v), 0, s, a.len() as int);
}

/// The words of a list as bytes.
pub open spec fn words_bytes(words: Seq<u64>) -> Seq<u8>
    decreases words.len(),
{
    if words.len() == 0 {
        Seq::empty()
    } else {
        words_bytes(words.drop_last()) + le_bytes_u64(words.last())
    }
}

pub fn words_to_bytes(words: &[u64]) -> (r: Vec<u8>)
    ensures
        r@ == words_bytes(words@),
{
    let mut out: Vec<u8> = Vec::new();
    let mut i: usize = 0;
    assert(words@.take(0) =~= Seq::empty());
    while i < words.len()
        invariant
            i <= words@.len(),
            out@ == words_bytes(words@.take(i as int)),
        decreases words@.len() - i,
    {
        push_u64(&mut out, words[i]);
        i = i + 1;
        assert(words@.take(i as int).drop_last() =~= words@.take(i - 1));
    }
    assert(words@.take(i as int) =~= words@);
    out
}

/// A word of a list is found eight bytes times its number into the bytes of the
/// list.
pub proof fn lemma_words_bytes(words: Seq<u64>, i: int)
    requires
        0 <= i < words.len(),
    ensures
        words_bytes(words).len() == 8 * words.len(),
        le_u64(words_bytes(words), 8 * i) == words[i],
    decreases words.len(),
{
    let rest = words.drop_last();
    lemma_words_len(rest);
    lemma_words_len(words);
    lemma_le_u64_of_bytes(words.last());
    let s = words_bytes(words);
    if i == words.len() - 1 {
        lemma_u64_at(words_bytes(rest), words.last(), Seq::empty());
        assert(s =~= words_bytes(rest) + le_bytes_u64(words.last()) + Seq::<u8>::empty());
    } else {
        lemma_words_bytes(rest, i);
        assert(s.subrange(8 * i, 8 * i + 8) =~= words_bytes(rest).subrange(8 * i, 8 * i + 8));
        lemma_le_u64_ext(words_bytes(rest), 8 * i, s, 8 * i);
    }
}

proof fn lemma_words_len(words: Seq<u64>)
    ensures
        words_bytes(words).len() == 8 * words.len(),
    decreases words.len(),
{
    if words.len() > 0 {
        lemma_words_len(words.drop_last());
        lemma_le_u64_of_bytes(words.last());
    }
}

/// Whether two buffers hold the same bytes.
pub fn equal(a: &[u8], b: &[u8]) -> (r: bool)
    ensures
        r == (a@ == b@),
{
    if a.len() != b.len() {
        return false;
    }
    let mut i: usize = 0;
    while i < a.len()
        invariant
            i <= a@.len(),
            a@.len() == b@.len(),
            forall|k: int| 0 <= k < i ==> a@[k] == b@[k],
        decreases a@.len() - i,
    {
        if a[i] != b[i] {
            return false;
        }
        i = i + 1;
    }
    assert(a@ =~= b@);
    true
}

/// The least significant byte comes first, and each further one counts 256 times
/// the one before.
pub proof fn lemma_least_first(s: Seq<u8>, off: int)
    ensures
        le_u16(s, off) == s[off] + 256 * s[off + 1],
        le_u32(s, off) == s[off] + 256 * (s[off + 1] + 256 * (s[off + 2] + 256 * s[off + 3])),
        le_u64(s, off) == le_u16(s, off) + 0x1_0000 * (le_u16(s, off + 2) + 0x1_0000 * (le_u16(s, off + 4)
            + 0x1_0000 * le_u16(s, off + 6))),
{
}

} // verus!
