//! The block-device service: requests, and the reads a client makes of it.
use vstd::prelude::*;
use vstd::slice::slice_subrange;
use vstd::string::*;

use crate::rt::abi::Cap;
use crate::text;

verus! {

/// Client to blk: attach a DMA buffer (capability attached; page count in the
/// high 32 bits of word 0, since a capability message carries one word).
pub const REGISTER_BUF: u64 = 1;

/// Client to blk: where to send replies (endpoint capability attached).
pub const SET_REPLY: u64 = 2;

/// Client to blk: read `w2` blocks starting at LBA `w1` into the buffer.
pub const READ: u64 = 3;

/// blk to client: w0 = status (0 = ok), w1 = blocks transferred, w2 = block size
/// in bytes.
pub const STATUS_OK: u64 = 0;

pub const STATUS_ERR: u64 = 1;

/// Largest single read, in blocks of 512 bytes (two PRP entries).
pub const MAX_BLOCKS: u64 = 16;

/// Where the text in a fixed field ends: after the last byte that is neither a
/// blank nor NUL.
pub open spec fn field_end(b: Seq<u8>, n: int) -> int
    decreases n,
{
    if n <= 0 {
        0
    } else if b[n - 1] == 0x20 || b[n - 1] == 0 {
        field_end(b, n - 1)
    } else {
        n
    }
}

/// The text in a fixed field; "?" if it is none.
pub fn trim(bytes: &[u8]) -> (r: &str)
    ensures
        r@ == match text::text_in(bytes@.subrange(0, field_end(bytes@, bytes@.len() as int))) {
            Some(t) => t,
            None => "?"@,
        },
{
    let mut n: usize = bytes.len();
    while n > 0 && (bytes[n - 1] == 0x20 || bytes[n - 1] == 0)
        invariant
            n <= bytes@.len(),
            field_end(bytes@, bytes@.len() as int) == field_end(bytes@, n as int),
        decreases n,
    {
        n = n - 1;
    }
    match text::text_of(slice_subrange(bytes, 0, n)) {
        Some(s) => s,
        None => "?",
    }
}

/// What the service knows of its client.
#[derive(Clone, Copy, Debug, PartialEq, Eq, Structural)]
pub struct Client {
    pub buf_phys: u64,
    pub buf_pages: u64,
    pub reply: Option<Cap>,
}

/// What a request asks for.
#[allow(inconsistent_fields)]
#[derive(Clone, Copy, Debug, PartialEq, Eq, Structural)]
pub enum Act {
    /// Map the buffer, find its address and attach it.
    Attach { cap: Cap, pages: u64 },
    /// The buffer is missing.
    NoBuffer,
    /// Nothing to do, or nobody to tell.
    Nothing,
    /// Answer that the request is refused.
    Refuse { reply: Cap },
    /// Read blocks into the client's buffer and answer.
    Transfer { lba: u64, count: u16, phys: u64, reply: Cap },
    Unknown(u64),
}

impl Client {
    pub fn new() -> (r: Self)
        ensures
            r == (Client { buf_phys: 0, buf_pages: 0, reply: None }),
    {
        Client { buf_phys: 0, buf_pages: 0, reply: None }
    }

    /// The most blocks a read may ask for: what fits the buffer, and never more
    /// than sixteen.
    pub open spec fn max_blocks(&self, block_size: u32) -> int {
        let fit = (self.buf_pages * 4096) / (block_size as int);
        if fit < MAX_BLOCKS {
            fit
        } else {
            MAX_BLOCKS as int
        }
    }

    /// What a request comes to.
    pub open spec fn asked(&self, words: Seq<u64>, cap: Option<Cap>, block_size: u32) -> Act {
        let op = words[0] % 0x1_0000_0000;
        if op == REGISTER_BUF {
            match cap {
                Some(c) => Act::Attach { cap: c, pages: words[0] / 0x1_0000_0000 },
                None => Act::NoBuffer,
            }
        } else if op == SET_REPLY {
            Act::Nothing
        } else if op == READ {
            match self.reply {
                None => Act::Nothing,
                Some(reply) => if self.buf_phys == 0 || words[2] == 0 || words[2] > self.max_blocks(
                    block_size,
                ) {
                    Act::Refuse { reply }
                } else {
                    Act::Transfer {
                        lba: words[1],
                        count: words[2] as u16,
                        phys: self.buf_phys,
                        reply,
                    }
                },
            }
        } else {
            Act::Unknown(op)
        }
    }

    /// Take a request.
    pub fn on_message(&mut self, words: &[u64; 4], cap: Option<Cap>, block_size: u32) -> (r: Act)
        requires
            block_size > 0,
            old(self).buf_pages < 0x1_0000_0000,
        ensures
            r == old(self).asked(words@, cap, block_size),
            *final(self) == if words@[0] % 0x1_0000_0000 == SET_REPLY {
                Client { reply: cap, ..*old(self) }
            } else {
                *old(self)
            },
    {
        let op: u64 = words[0] % 0x1_0000_0000;
        let arg: u64 = words[0] / 0x1_0000_0000;
        if op == REGISTER_BUF {
            return match cap {
                Some(c) => Act::Attach { cap: c, pages: arg },
                None => Act::NoBuffer,
            };
        }
        if op == SET_REPLY {
            self.reply = cap;
            return Act::Nothing;
        }
        if op == READ {
            let reply: Cap = match self.reply {
                None => {
                    return Act::Nothing;
                },
                Some(c) => c,
            };
            let fit: u64 = self.buf_pages * 4096 / (block_size as u64);
            let max: u64 = if fit < MAX_BLOCKS {
                fit
            } else {
                MAX_BLOCKS
            };
            if self.buf_phys == 0 || words[2] == 0 || words[2] > max {
                return Act::Refuse { reply };
            }
            return Act::Transfer { lba: words[1], count: words[2] as u16, phys: self.buf_phys, reply };
        }
        Act::Unknown(op)
    }

    /// Use the buffer at a physical address from now on.
    pub fn attach(&mut self, phys: u64, pages: u64)
        ensures
            *final(self) == (Client { buf_phys: phys, buf_pages: pages, ..*old(self) }),
    {
        self.buf_phys = phys;
        self.buf_pages = pages;
    }
}

/// The words of the answer to a read.
pub fn answer(ok: bool, count: u16, block_size: u32) -> (r: (u64, u64, u64))
    ensures
        r == (if ok {
            STATUS_OK
        } else {
            STATUS_ERR
        }, count as u64, block_size as u64),
{
    let status: u64 = if ok {
        STATUS_OK
    } else {
        STATUS_ERR
    };
    (status, count as u64, block_size as u64)
}

/// A read that is carried out fits the buffer its client registered.
pub proof fn lemma_in_buffer(c: Client, words: Seq<u64>, cap: Option<Cap>, block_size: u32)
    requires
        block_size > 0,
        c.asked(words, cap, block_size) is Transfer,
    ensures
        ({
            let n = c.asked(words, cap, block_size)->count;
            &&& 1 <= n <= MAX_BLOCKS
            &&& n * block_size <= c.buf_pages * 4096
            &&& c.asked(words, cap, block_size)->phys == c.buf_phys
        }),
{
    let n = c.asked(words, cap, block_size)->count;
    let total = c.buf_pages * 4096;
    let b = block_size as int;
    assert(n * b <= total) by (nonlinear_arith)
        requires
            n <= total / b,
            b > 0,
            total >= 0,
    ;
}

/// `out1` is `out0` with the bytes from `a` to `b` taken from the start of
/// `shared`.
pub open spec fn copied(out0: Seq<u8>, out1: Seq<u8>, shared: Seq<u8>, a: int, b: int) -> bool {
    &&& out1.len() == out0.len()
    &&& forall|k: int|
        0 <= k < out0.len() ==> #[trigger] out1[k] == if a <= k < b {
            shared[k - a]
        } else {
            out0[k]
        }
}

/// A read of many blocks, in pieces the service accepts.
pub struct Transfer {
    pub lba: u64,
    pub count: usize,
    pub done: usize,
}

impl Transfer {
    pub open spec fn wf(&self) -> bool {
        &&& self.done <= self.count
        &&& self.lba + self.count <= u64::MAX
    }

    pub fn new(lba: u64, count: usize) -> (r: Self)
        requires
            lba + count <= u64::MAX,
        ensures
            r.wf(),
            r.lba == lba,
            r.count == count,
            r.done == 0,
    {
        Transfer { lba, count, done: 0 }
    }

    /// Blocks in the next piece: at most sixteen.
    pub open spec fn piece(&self) -> int {
        let left = self.count - self.done;
        if left < MAX_BLOCKS {
            left
        } else {
            MAX_BLOCKS as int
        }
    }

    /// The next piece to ask for, as first block and number; `None` when all is
    /// read.
    pub fn next(&self) -> (r: Option<(u64, u64)>)
        requires
            self.wf(),
        ensures
            r == if self.done == self.count {
                None::<(u64, u64)>
            } else {
                Some(((self.lba + self.done) as u64, self.piece() as u64))
            },
    {
        if self.done == self.count {
            return None;
        }
        let left: usize = self.count - self.done;
        let n: usize = if left < MAX_BLOCKS as usize {
            left
        } else {
            MAX_BLOCKS as usize
        };
        Some((self.lba + self.done as u64, n as u64))
    }

    /// The answer to the piece that was asked for: on success its bytes go from
    /// the shared buffer to their place in `out`.
    pub fn on_reply(&mut self, status: u64, shared: &[u8], out: &mut [u8]) -> (r: Result<(), ()>)
        requires
            old(self).wf(),
            old(self).done < old(self).count,
            old(out)@.len() == old(self).count * 512,
            shared@.len() >= old(self).piece() * 512,
        ensures
            final(self).wf(),
            final(self).lba == old(self).lba,
            final(self).count == old(self).count,
            final(out)@.len() == old(out)@.len(),
            r is Ok <==> status == STATUS_OK,
            r is Err ==> final(self).done == old(self).done && final(out)@ == old(out)@,
            r is Ok ==> final(self).done == old(self).done + old(self).piece() && copied(
                old(out)@,
                final(out)@,
                shared@,
                old(self).done * 512,
                final(self).done * 512,
            ),
    {
        if status != STATUS_OK {
            return Err(());
        }
        assert(out.len() == out@.len() && shared.len() == shared@.len());
        let left: usize = self.count - self.done;
        let n: usize = if left < MAX_BLOCKS as usize {
            left
        } else {
            MAX_BLOCKS as usize
        };
        let from: usize = self.done * 512;
        let len: usize = n * 512;
        let mut i: usize = 0;
        while i < len
            invariant
                i <= len <= shared@.len(),
                from + len <= out@.len(),
                out.len() == out@.len() == old(out)@.len(),
                shared.len() == shared@.len(),
                forall|k: int|
                    0 <= k < out@.len() ==> #[trigger] out@[k] == if from <= k < from + i {
                        shared@[k - from]
                    } else {
                        old(out)@[k]
                    },
            decreases len - i,
        {
            out[from + i] = shared[i];
            i = i + 1;
        }
        self.done = self.done + n;
        Ok(())
    }
}

/// The first `done` blocks from `lba` on are in place.
pub open spec fn has_read(out: Seq<u8>, disk: spec_fn(int) -> u8, lba: int, done: int) -> bool {
    forall|k: int| 0 <= k < done * 512 ==> #[trigger] out[k] == disk(lba * 512 + k)
}

/// Piece by piece a transfer reads the blocks it was made for: each answer
/// continues what is there already, and when the last piece is done every block
/// is.
pub proof fn lemma_pieces(
    out0: Seq<u8>,
    out1: Seq<u8>,
    shared: Seq<u8>,
    disk: spec_fn(int) -> u8,
    lba: int,
    done: int,
    next: int,
)
    requires
        0 <= done <= next,
        next * 512 <= out0.len(),
        has_read(out0, disk, lba, done),
        forall|j: int|
            0 <= j < (next - done) * 512 ==> #[trigger] shared[j] == disk((lba + done) * 512 + j),
        copied(out0, out1, shared, done * 512, next * 512),
    ensures
        has_read(out1, disk, lba, next),
{
    assert forall|k: int| 0 <= k < next * 512 implies #[trigger] out1[k] == disk(lba * 512 + k) by {
        if k >= done * 512 {
            assert(shared[k - done * 512] == disk((lba + done) * 512 + (k - done * 512)));
        } else {
            assert(out0[k] == disk(lba * 512 + k));
        }
    }
}

/// What becomes of a request for blocks: it is carried out at the address of the
/// client's own buffer, for exactly the blocks asked for, if there are some, no
/// more than sixteen and no more than the buffer has room for. One that is not is
/// refused, and a client that gave no way to answer it hears nothing.
pub proof fn lemma_read_request(c: Client, words: Seq<u64>, cap: Option<Cap>, block_size: u32)
    requires
        block_size > 0,
        words[0] == 3,
    ensures
        c.reply is None ==> c.asked(words, cap, block_size) is Nothing,
        c.reply matches Some(reply) ==> {
            let fits = c.buf_phys != 0 && 1 <= words[2] <= 16 && words[2] * block_size <= c.buf_pages * 4096;
            &&& fits ==> c.asked(words, cap, block_size) == (Act::Transfer {
                lba: words[1],
                count: words[2] as u16,
                phys: c.buf_phys,
                reply,
            })
            &&& !fits ==> c.asked(words, cap, block_size) == (Act::Refuse { reply })
        },
{
    let room = c.buf_pages * 4096;
    let b = block_size as int;
    let n = words[2] as int;
    let fit = room / b;
    vstd::arithmetic::div_mod::lemma_fundamental_div_mod(room, b);
    vstd::arithmetic::div_mod::lemma_mod_bound(room, b);
    if n <= fit {
        assert(n * b <= fit * b) by (nonlinear_arith)
            requires
                n <= fit,
                b > 0,
        ;
        vstd::arithmetic::mul::lemma_mul_is_commutative(fit, b);
    } else {
        assert((fit + 1) * b <= n * b) by (nonlinear_arith)
            requires
                fit + 1 <= n,
                b > 0,
        ;
        assert((fit + 1) * b == b * fit + b) by (nonlinear_arith);
    }
}

/// A client registers a buffer by sending it along, with its pages above the code
/// of the request.
pub proof fn lemma_register_request(c: Client, words: Seq<u64>, cap: Option<Cap>, block_size: u32, pages: int)
    requires
        0 <= pages < 0x1_0000_0000,
        words[0] == pages * 0x1_0000_0000 + 1,
    ensures
        cap matches Some(b) ==> c.asked(words, cap, block_size) == (Act::Attach { cap: b, pages: pages as u64 }),
        cap is None ==> c.asked(words, cap, block_size) is NoBuffer,
{
}

/// A transfer asks for what is left, from the block after the last it has, sixteen
/// blocks at a time.
pub proof fn lemma_next_piece(t: Transfer)
    requires
        t.wf(),
        t.done < t.count,
    ensures
        1 <= t.piece() <= 16,
        t.done + t.piece() <= t.count,
        t.piece() == 16 || t.done + t.piece() == t.count,
{
}

/// The text of a field ends before the blanks and NULs that fill it.
pub proof fn lemma_field_end(b: Seq<u8>, n: int)
    requires
        0 <= n <= b.len(),
    ensures
        0 <= field_end(b, n) <= n,
        field_end(b, n) > 0 ==> b[field_end(b, n) - 1] != 0x20 && b[field_end(b, n) - 1] != 0,
        forall|k: int| field_end(b, n) <= k < n ==> #[trigger] b[k] == 0x20 || b[k] == 0,
    decreases n,
{
    if n > 0 && (b[n - 1] == 0x20 || b[n - 1] == 0) {
        lemma_field_end(b, n - 1);
    }
}

} // verus!
