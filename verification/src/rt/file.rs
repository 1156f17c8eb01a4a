//! Client side of the file service protocol: a service's handle on the file
//! server. Requests are put into the shared buffer here, and replies read out of
//! it; sending and receiving is up to the caller.
use vstd::prelude::*;
use vstd::string::*;

use crate::bytes;
use crate::rt::abi;
use crate::rt::abi::{Cap, Error, RIGHT_MAP_READ, RIGHT_MAP_WRITE, RIGHT_SEND};
use crate::rt::calls;
use crate::rt::calls::{
    Call, SYS_SEND, SYS_SEND_CAP,
};
use crate::rt::fsproto;
use crate::rt::fsproto::{
    DirRec, Stat, BYE, CLOSE, CONNECT, DATA_OFF, DIR_REC, LIST, MAX_PATH, MAX_READ, OK, OPEN, READ,
    REGISTER_BUF, STAT,
};

verus! {

/// Pages of shared memory a client registers by default: room for a path, a full
/// read and a directory listing.
pub const DEFAULT_PAGES: usize = 16;

/// Where the records of a listing go: behind the longest path.
pub const REC_OFF: usize = 391;

/// An open file on the server. Handles are small integers owned by the server,
/// valid until closed.
#[derive(Clone, Copy, Debug, PartialEq, Eq, Structural)]
pub struct File(pub u32);

/// The words of a request message.
#[derive(Clone, Copy, Debug, PartialEq, Eq, Structural)]
pub struct Ask {
    pub op: u64,
    /// Bytes of the request block.
    pub req_len: u64,
    /// Bytes of results wanted.
    pub want: u64,
}

/// A connected file-service client: one shared buffer plus one reply endpoint.
#[derive(Clone, Copy, Debug, PartialEq, Eq, Structural)]
pub struct FileClient {
    pub listen: Cap,
    pub reply: Cap,
    pub buf: Cap,
    pub len: usize,
}

/// Pages a client registers when it asks for `pages`: between 2 and 64.
pub open spec fn pages_for(pages: int) -> int {
    if pages < 2 {
        2
    } else if pages > 64 {
        64
    } else {
        pages
    }
}

pub fn buffer_pages(pages: usize) -> (r: usize)
    ensures
        r == pages_for(pages as int),
{
    if pages < 2 {
        2
    } else if pages > 64 {
        64
    } else {
        pages
    }
}

/// Whether the four words of the request block are `args`.
pub open spec fn block_is(b: Seq<u8>, args: Seq<u64>) -> bool {
    forall|i: int| 0 <= i < 4 ==> #[trigger] fsproto::req_word(b, i) == args[i]
}

/// `b1` is `b0` with a request block and the bytes of a path put in.
pub open spec fn put(b0: Seq<u8>, b1: Seq<u8>, args: Seq<u64>, path: Seq<u8>) -> bool {
    &&& b1.len() == b0.len()
    &&& block_is(b1, args)
    &&& forall|i: int| 0 <= i < path.len() ==> #[trigger] path[i] == b1[DATA_OFF + i]
    &&& forall|i: int|
        32 <= i < b0.len() && !(DATA_OFF <= i < DATA_OFF + path.len()) ==> #[trigger] b1[i] == b0[i]
}

/// Put a request block into the buffer.
fn put_block(buf: &mut [u8], args: &[u64; 4])
    requires
        old(buf)@.len() >= 32,
    ensures
        final(buf)@.len() == old(buf)@.len(),
        block_is(final(buf)@, args@),
        forall|i: int| 32 <= i < old(buf)@.len() ==> #[trigger] final(buf)@[i] == old(buf)@[i],
{
    let mut i: usize = 0;
    while i < 4
        invariant
            i <= 4,
            buf@.len() == old(buf)@.len() >= 32,
            forall|k: int| 0 <= k < i ==> #[trigger] fsproto::req_word(buf@, k) == args@[k],
            forall|k: int| 32 <= k < buf@.len() ==> #[trigger] buf@[k] == old(buf)@[k],
        decreases 4 - i,
    {
        let ghost b0 = buf@;
        bytes::put_u64(buf, i * 8, args[i]);
        proof {
            let b1 = buf@;
            assert forall|k: int| 0 <= k < i + 1 implies #[trigger] fsproto::req_word(b1, k) == args@[k] by {
                if k < i {
                    assert(fsproto::req_word(b0, k) == args@[k]);
                    bytes::lemma_le_u64_ext(b0, k * 8, b1, k * 8);
                }
            }
        }
        i = i + 1;
    }
}

/// Whether a path can be asked for.
pub open spec fn path_fits(len: int, path: Seq<u8>) -> Result<(), Error> {
    if path.len() == 0 || path.len() > MAX_PATH {
        Err(Error::Inval)
    } else if DATA_OFF + path.len() > len {
        Err(Error::NoMem)
    } else {
        Ok(())
    }
}

/// Put a path and the request block that names it into the buffer.
fn put_path(buf: &mut [u8], path: &[u8], args: &[u64; 4])
    requires
        DATA_OFF + path@.len() <= old(buf)@.len(),
    ensures
        put(old(buf)@, final(buf)@, args@, path@),
{
    assert(path.len() == path@.len() && buf.len() == buf@.len());
    let n: usize = path.len();
    put_block(buf, args);
    let ghost b1 = buf@;
    let mut i: usize = 0;
    while i < n
        invariant
            i <= n == path@.len() == path.len(),
            buf@.len() == buf.len() == b1.len() == old(buf)@.len(),
            DATA_OFF + n <= buf@.len(),
            forall|k: int| 0 <= k < i ==> #[trigger] path@[k] == buf@[DATA_OFF + k],
            forall|k: int|
                0 <= k < b1.len() && !(DATA_OFF <= k < DATA_OFF + i) ==> #[trigger] buf@[k] == b1[k],
        decreases n - i,
    {
        buf[DATA_OFF + i] = path[i];
        i = i + 1;
    }
    proof {
        assert forall|k: int| 0 <= k < 4 implies #[trigger] fsproto::req_word(buf@, k) == args@[k] by {
            assert(fsproto::req_word(b1, k) == args@[k]);
            bytes::lemma_le_u64_ext(b1, k * 8, buf@, k * 8);
        }
    }
}

fn check_path(len: usize, path: &[u8]) -> (r: Result<(), Error>)
    requires
        path@.len() <= usize::MAX - DATA_OFF,
    ensures
        r == path_fits(len as int, path@),
{
    assert(path.len() == path@.len());
    if path.len() == 0 || path.len() > MAX_PATH {
        Err(Error::Inval)
    } else if DATA_OFF + path.len() > len {
        Err(Error::NoMem)
    } else {
        Ok(())
    }
}

/// What a request with nothing but a path comes to.
pub open spec fn path_request(b0: Seq<u8>, b1: Seq<u8>, op: u64, path: Seq<u8>, r: Result<Ask, Error>) -> bool {
    match path_fits(b0.len() as int, path) {
        Err(e) => r == Err::<Ask, Error>(e) && b1 == b0,
        Ok(_) => {
            &&& r == Ok::<Ask, Error>(Ask { op, req_len: 32, want: 0 })
            &&& put(b0, b1, seq![DATA_OFF as u64, path.len() as u64, 0, 0], path)
        },
    }
}

fn ask_path(buf: &mut [u8], op: u64, path: &str) -> (r: Result<Ask, Error>)
    ensures
        path_request(old(buf)@, final(buf)@, op, path.spec_bytes(), r),
{
    let p: &[u8] = path.as_bytes();
    assert(p.len() == p@.len() && buf.len() == buf@.len());
    if p.len() == 0 || p.len() > MAX_PATH {
        return Err(Error::Inval);
    }
    match check_path(buf.len(), p) {
        Err(e) => {
            return Err(e);
        },
        Ok(_) => {},
    }
    let args: [u64; 4] = [DATA_OFF as u64, p.len() as u64, 0, 0];
    assert(args@ =~= seq![DATA_OFF as u64, p@.len() as u64, 0, 0]);
    put_path(buf, p, &args);
    Ok(Ask { op, req_len: 32, want: 0 })
}

/// Ask for a file to be opened for reading.
pub fn open(buf: &mut [u8], path: &str) -> (r: Result<Ask, Error>)
    ensures
        path_request(old(buf)@, final(buf)@, OPEN, path.spec_bytes(), r),
{
    ask_path(buf, OPEN, path)
}

/// The reply to an open.
pub fn open_done(words: &[u64; 4]) -> (r: Result<File, Error>)
    ensures
        r == if words@[0] == OK && words@[1] != 0 {
            Ok::<File, Error>(File(abi::low32(words@[1])))
        } else {
            Err::<File, Error>(Error::Inval)
        },
{
    if words[0] != OK || words[1] == 0 {
        return Err(Error::Inval);
    }
    Ok(File((words[1] % 0x1_0000_0000) as u32))
}

/// Ask what a path leads to.
pub fn stat(buf: &mut [u8], path: &str) -> (r: Result<Ask, Error>)
    ensures
        path_request(old(buf)@, final(buf)@, STAT, path.spec_bytes(), r),
{
    ask_path(buf, STAT, path)
}

/// The reply to a stat.
pub fn stat_done(words: &[u64; 4]) -> (r: Result<Stat, Error>)
    ensures
        r == if words@[0] == OK {
            Ok::<Stat, Error>(Stat { size: words@[1], is_dir: words@[2] != 0 })
        } else {
            Err::<Stat, Error>(Error::Inval)
        },
{
    if words[0] != OK {
        return Err(Error::Inval);
    }
    Ok(Stat { size: words[1], is_dir: words[2] != 0 })
}

/// Ask for a file to be closed.
pub fn close(buf: &mut [u8], f: File) -> (r: Result<Ask, Error>)
    ensures
        old(buf)@.len() < 32 ==> r == Err::<Ask, Error>(Error::NoMem) && final(buf)@ == old(buf)@,
        old(buf)@.len() >= 32 ==> {
            &&& r == Ok::<Ask, Error>(Ask { op: CLOSE, req_len: 32, want: 0 })
            &&& put(old(buf)@, final(buf)@, seq![f.0 as u64, 0, 0, 0], Seq::empty())
        },
{
    assert(buf.len() == buf@.len());
    if buf.len() < 32 {
        return Err(Error::NoMem);
    }
    let args: [u64; 4] = [f.0 as u64, 0, 0, 0];
    assert(args@ =~= seq![f.0 as u64, 0, 0, 0]);
    put_block(buf, &args);
    Ok(Ask { op: CLOSE, req_len: 32, want: 0 })
}

/// How much of `n` bytes one request asks for.
pub open spec fn read_size(n: int) -> int {
    if n < MAX_READ {
        n
    } else {
        MAX_READ as int
    }
}

/// Ask for `n` bytes of a file at `offset`.
fn ask_read(buf: &mut [u8], f: File, offset: u64, n: usize) -> (r: Result<Ask, Error>)
    requires
        n <= MAX_READ,
    ensures
        asked(f, offset, n as int, old(buf)@, final(buf)@, r),
{
    assert(buf.len() == buf@.len());
    if DATA_OFF + n > buf.len() {
        return Err(Error::NoMem);
    }
    let args: [u64; 4] = [f.0 as u64, offset, DATA_OFF as u64, n as u64];
    assert(args@ =~= seq![f.0 as u64, offset, DATA_OFF as u64, n as u64]);
    put_block(buf, &args);
    Ok(Ask { op: READ, req_len: 32, want: n as u64 })
}

/// What asking for `n` bytes of a file at `offset` puts into the buffer. The
/// answer has to fit it too.
pub open spec fn asked(f: File, offset: u64, n: int, b0: Seq<u8>, b1: Seq<u8>, r: Result<Ask, Error>) -> bool {
    if DATA_OFF + n > b0.len() {
        r == Err::<Ask, Error>(Error::NoMem) && b1 == b0
    } else {
        &&& r == Ok::<Ask, Error>(Ask { op: READ, req_len: 32, want: n as u64 })
        &&& put(b0, b1, seq![f.0 as u64, offset, DATA_OFF as u64, n as u64], Seq::empty())
    }
}

/// A read under way: bytes of a file from `offset` on, until `len` have arrived
/// or the file ends. One request brings no more than [`MAX_READ`] bytes, so a
/// longer read takes several.
#[derive(Clone, Copy, Debug, PartialEq, Eq, Structural)]
pub struct Reading {
    pub file: File,
    pub offset: u64,
    pub len: usize,
    /// How many have arrived.
    pub done: usize,
}

/// Start to read up to `n` bytes at `offset`. A short read means end of file.
pub fn read(f: File, offset: u64, n: usize) -> (r: Reading)
    ensures
        r == (Reading { file: f, offset, len: n, done: 0 }),
        r.wf(),
{
    Reading { file: f, offset, len: n, done: 0 }
}

impl Reading {
    pub open spec fn wf(&self) -> bool {
        self.done <= self.len
    }

    /// How much the next request asks for.
    pub open spec fn want(&self) -> int {
        read_size(self.len - self.done)
    }

    /// `self` is `old` after a reply was taken in: what arrived stands in `out1`
    /// behind what had arrived before, and the read is over exactly when all of
    /// it has arrived or the server gave less than it was asked for.
    pub open spec fn took(
        &self,
        old: &Reading,
        words: Seq<u64>,
        buf: Seq<u8>,
        out0: Seq<u8>,
        out1: Seq<u8>,
        r: Result<Option<usize>, Error>,
    ) -> bool {
        if words[0] != OK {
            r == Err::<Option<usize>, Error>(Error::Inval) && *self == *old && out1 == out0
        } else {
            let n = if words[1] < old.want() {
                words[1] as int
            } else {
                old.want()
            };
            &&& *self == (Reading { done: (old.done + n) as usize, ..*old })
            &&& out1 == out0.subrange(0, old.done as int) + buf.subrange(DATA_OFF as int, DATA_OFF + n)
                + out0.subrange(old.done + n, out0.len() as int)
            &&& r == Ok::<Option<usize>, Error>(
                if n < old.want() || old.done + n == old.len {
                    Some((old.done + n) as usize)
                } else {
                    None
                },
            )
        }
    }

    /// Ask for the next bytes; there is nothing to ask if all have arrived. A
    /// file has no bytes past the last offset there is.
    pub fn next(&self, buf: &mut [u8]) -> (r: Result<Option<Ask>, Error>)
        requires
            self.wf(),
        ensures
            self.done == self.len ==> r == Ok::<Option<Ask>, Error>(None) && final(buf)@ == old(buf)@,
            self.done < self.len && self.offset + self.done > u64::MAX ==> r == Err::<Option<Ask>, Error>(
                Error::Inval,
            ) && final(buf)@ == old(buf)@,
            self.done < self.len && self.offset + self.done <= u64::MAX ==> if DATA_OFF + self.want() > old(
                buf,
            )@.len() {
                r == Err::<Option<Ask>, Error>(Error::NoMem) && final(buf)@ == old(buf)@
            } else {
                &&& r == Ok::<Option<Ask>, Error>(
                    Some(Ask { op: READ, req_len: 32, want: self.want() as u64 }),
                )
                &&& put(
                    old(buf)@,
                    final(buf)@,
                    seq![
                        self.file.0 as u64,
                        (self.offset + self.done) as u64,
                        DATA_OFF as u64,
                        self.want() as u64,
                    ],
                    Seq::empty(),
                )
            },
    {
        if self.done == self.len {
            return Ok(None);
        }
        let at: u64 = match self.offset.checked_add(self.done as u64) {
            None => {
                return Err(Error::Inval);
            },
            Some(at) => at,
        };
        match ask_read(buf, self.file, at, self.size()) {
            Ok(ask) => Ok(Some(ask)),
            Err(e) => Err(e),
        }
    }

    fn size(&self) -> (r: usize)
        requires
            self.wf(),
        ensures
            r == self.want(),
    {
        if self.len - self.done < MAX_READ {
            self.len - self.done
        } else {
            MAX_READ
        }
    }

    /// Take in a reply: the server filled the data area, and the bytes go from
    /// there to the caller. Returns how many arrived in all when the read is
    /// over; fewer than were wanted only where the server gave less than it was
    /// asked for, which means end of file.
    pub fn on_reply(&mut self, words: &[u64; 4], buf: &[u8], out: &mut [u8]) -> (r: Result<
        Option<usize>,
        Error,
    >)
        requires
            old(self).wf(),
            old(self).done < old(self).len,
            old(out)@.len() == old(self).len,
            DATA_OFF + old(self).want() <= buf@.len(),
        ensures
            final(self).wf(),
            final(out)@.len() == old(out)@.len(),
            final(self).took(old(self), words@, buf@, old(out)@, final(out)@, r),
            r matches Ok(Some(n)) ==> n == final(self).done && (n < final(self).len ==> words@[1] < old(
                self,
            ).want()),
            r matches Ok(None) ==> old(self).done < final(self).done < final(self).len,
    {
        if words[0] != OK {
            return Err(Error::Inval);
        }
        assert(out.len() == out@.len() && buf.len() == buf@.len());
        let want: usize = self.size();
        let n: usize = if words[1] < want as u64 {
            words[1] as usize
        } else {
            want
        };
        let start: usize = self.done;
        let mut i: usize = 0;
        while i < n
            invariant
                i <= n,
                start + n <= out@.len(),
                out.len() == out@.len() == old(out)@.len(),
                DATA_OFF + n <= buf@.len() == buf.len(),
                forall|k: int|
                    0 <= k < out@.len() ==> #[trigger] out@[k] == if start <= k < start + i {
                        buf@[DATA_OFF + (k - start)]
                    } else {
                        old(out)@[k]
                    },
            decreases n - i,
        {
            out[start + i] = buf[DATA_OFF + i];
            i = i + 1;
        }
        assert(out@ =~= old(out)@.subrange(0, start as int) + buf@.subrange(DATA_OFF as int, DATA_OFF + n)
            + old(out)@.subrange(start + n, old(out)@.len() as int));
        self.done = start + n;
        if n < want || self.done == self.len {
            Ok(Some(self.done))
        } else {
            Ok(None)
        }
    }
}

/// Ask for a listing of up to `max` entries; there is nothing to ask if `max` is
/// 0.
pub fn list(buf: &mut [u8], path: &str, max: usize) -> (r: Result<Option<Ask>, Error>)
    requires
        REC_OFF + max * 16 <= usize::MAX,
    ensures
        max == 0 ==> r == Ok::<Option<Ask>, Error>(None) && final(buf)@ == old(buf)@,
        max > 0 ==> match path_fits(old(buf)@.len() as int, path.spec_bytes()) {
            Err(e) => r == Err::<Option<Ask>, Error>(e) && final(buf)@ == old(buf)@,
            Ok(_) => if REC_OFF + max * 16 > old(buf)@.len() {
                r == Err::<Option<Ask>, Error>(Error::NoMem) && final(buf)@ == old(buf)@
            } else {
                &&& r == Ok::<Option<Ask>, Error>(
                    Some(Ask { op: LIST, req_len: 32, want: (max * 16) as u64 }),
                )
                &&& put(
                    old(buf)@,
                    final(buf)@,
                    seq![
                        DATA_OFF as u64,
                        path.spec_bytes().len() as u64,
                        max as u64,
                        REC_OFF as u64,
                    ],
                    path.spec_bytes(),
                )
            },
        },
{
    if max == 0 {
        return Ok(None);
    }
    let p: &[u8] = path.as_bytes();
    assert(p.len() == p@.len() && buf.len() == buf@.len());
    if p.len() == 0 || p.len() > MAX_PATH {
        return Err(Error::Inval);
    }
    match check_path(buf.len(), p) {
        Err(e) => {
            return Err(e);
        },
        Ok(_) => {},
    }
    let want: usize = max * 16;
    if REC_OFF + want > buf.len() {
        return Err(Error::NoMem);
    }
    let args: [u64; 4] = [DATA_OFF as u64, p.len() as u64, max as u64, REC_OFF as u64];
    assert(args@ =~= seq![DATA_OFF as u64, p@.len() as u64, max as u64, REC_OFF as u64]);
    put_path(buf, p, &args);
    Ok(Some(Ask { op: LIST, req_len: 32, want: want as u64 }))
}

/// Whether a record is what sixteen bytes at `off` say.
pub open spec fn record_at(b: Seq<u8>, off: int, r: DirRec) -> bool {
    &&& r.name@ == b.subrange(off, off + 11)
    &&& r.attr == b[off + 11]
    &&& r.size == bytes::le_u32(b, off + 12)
}

/// A record comes out of its bytes as it went in.
pub proof fn lemma_record(b: Seq<u8>, off: int, sent: DirRec, got: DirRec)
    requires
        0 <= off,
        off + DIR_REC <= b.len(),
        b.subrange(off, off + DIR_REC) == sent.encoded(),
        record_at(b, off, got),
    ensures
        got.name@ == sent.name@,
        got.attr == sent.attr,
        got.size == sent.size,
{
    let e = sent.encoded();
    bytes::lemma_le_u32_of_bytes(sent.size);
    let w = bytes::le_bytes_u32(sent.size);
    let t = b.subrange(off, off + DIR_REC);
    assert forall|k: int| 0 <= k < 11 implies #[trigger] got.name@[k] == sent.name@[k] by {
        assert(got.name@[k] == t[k]);
        assert(e[k] == sent.name@[k]);
    }
    assert(got.name@ =~= sent.name@);
    assert(got.attr == t[11] && e[11] == sent.attr);
    let x = b.subrange(off + 12, off + 12 + 4);
    assert forall|k: int| 0 <= k < 4 implies #[trigger] x[k] == w[k] by {
        assert(x[k] == t[12 + k]);
        assert(e[12 + k] == w[k]);
    }
    assert(w.subrange(0, 4) =~= x);
    bytes::lemma_le_u32_ext(w, 0, b, off + 12);
}

fn read_record(buf: &[u8], off: usize) -> (r: DirRec)
    requires
        off + 16 <= buf@.len(),
    ensures
        record_at(buf@, off as int, r),
{
    assert(buf.len() == buf@.len());
    let mut name: [u8; 11] = [0u8; 11];
    let mut i: usize = 0;
    while i < 11
        invariant
            i <= 11,
            off + 16 <= buf@.len() == buf.len(),
            forall|k: int| 0 <= k < i ==> #[trigger] name@[k] == buf@[off + k],
        decreases 11 - i,
    {
        name[i] = buf[off + i];
        i = i + 1;
    }
    assert(name@ =~= buf@.subrange(off as int, off + 11));
    DirRec { name, attr: buf[off + 11], size: bytes::get_u32(buf, off + 12) }
}

/// The reply to a listing into `out`: the records the server put behind the
/// path. Returns how many entries were written.
pub fn list_done(words: &[u64; 4], buf: &[u8], out: &mut [DirRec]) -> (r: Result<usize, Error>)
    requires
        REC_OFF + old(out)@.len() * 16 <= buf@.len(),
    ensures
        final(out)@.len() == old(out)@.len(),
        words@[0] != OK ==> r == Err::<usize, Error>(Error::Inval) && final(out)@ == old(out)@,
        words@[0] == OK ==> {
            let n = if words@[1] < old(out)@.len() {
                words@[1] as int
            } else {
                old(out)@.len() as int
            };
            &&& r == Ok::<usize, Error>(n as usize)
            &&& forall|i: int| 0 <= i < n ==> record_at(buf@, REC_OFF + i * 16, #[trigger] final(out)@[i])
            &&& forall|i: int| n <= i < old(out)@.len() ==> #[trigger] final(out)@[i] == old(out)@[i]
        },
{
    if words[0] != OK {
        return Err(Error::Inval);
    }
    assert(out.len() == out@.len() && buf.len() == buf@.len());
    let n: usize = if words[1] < out.len() as u64 {
        words[1] as usize
    } else {
        out.len()
    };
    let mut i: usize = 0;
    while i < n
        invariant
            i <= n <= out@.len(),
            out.len() == out@.len() == old(out)@.len(),
            REC_OFF + out@.len() * 16 <= buf@.len() == buf.len(),
            forall|k: int| 0 <= k < i ==> record_at(buf@, REC_OFF + k * 16, #[trigger] out@[k]),
            forall|k: int| i <= k < out@.len() ==> #[trigger] out@[k] == old(out)@[k],
        decreases n - i,
    {
        out[i] = read_record(buf, REC_OFF + i * 16);
        i = i + 1;
    }
    Ok(n)
}

/// Bytes that reading a whole file asks for at a time.
pub const CHUNK: usize = 1024;

/// A file being read from its start to its end.
#[derive(Clone, Copy, Debug, PartialEq, Eq, Structural)]
pub struct ReadAll {
    pub file: File,
    /// How much was read.
    pub off: u64,
}

/// Start to read a whole file.
pub fn read_all(f: File) -> (r: ReadAll)
    ensures
        r == (ReadAll { file: f, off: 0 }),
{
    ReadAll { file: f, off: 0 }
}

impl ReadAll {
    /// `self` is `old` after a reply was taken in: what arrived is at the end of
    /// `out1`, and the file ends where nothing arrives.
    pub open spec fn took(
        &self,
        old: &ReadAll,
        words: Seq<u64>,
        buf: Seq<u8>,
        out0: Seq<u8>,
        out1: Seq<u8>,
        r: Result<Option<usize>, Error>,
    ) -> bool {
        if words[0] != OK {
            r == Err::<Option<usize>, Error>(Error::Inval) && *self == *old && out1 == out0
        } else {
            let n = if words[1] < CHUNK {
                words[1] as int
            } else {
                CHUNK as int
            };
            &&& *self == (ReadAll { file: old.file, off: (old.off + n) as u64 })
            &&& out1 == out0 + buf.subrange(DATA_OFF as int, DATA_OFF + n)
            &&& r == Ok::<Option<usize>, Error>(
                if n == 0 {
                    Some(old.off as usize)
                } else {
                    None
                },
            )
        }
    }

    /// Ask for the next bytes.
    pub fn next(&self, buf: &mut [u8]) -> (r: Result<Ask, Error>)
        ensures
            asked(self.file, self.off, CHUNK as int, old(buf)@, final(buf)@, r),
    {
        ask_read(buf, self.file, self.off, CHUNK)
    }

    /// Take in a reply. Returns the length of the file when its end is reached.
    pub fn on_reply(&mut self, words: &[u64; 4], buf: &[u8], out: &mut Vec<u8>) -> (r: Result<
        Option<usize>,
        Error,
    >)
        requires
            DATA_OFF + CHUNK <= buf@.len(),
            old(self).off + CHUNK <= u64::MAX,
        ensures
            final(self).took(old(self), words@, buf@, old(out)@, final(out)@, r),
    {
        if words[0] != OK {
            return Err(Error::Inval);
        }
        assert(buf.len() == buf@.len());
        let n: usize = if words[1] < CHUNK as u64 {
            words[1] as usize
        } else {
            CHUNK
        };
        let ghost data = buf@.subrange(DATA_OFF as int, DATA_OFF + n);
        let mut i: usize = 0;
        assert(data.take(0) =~= Seq::empty());
        assert(out@ =~= old(out)@ + data.take(0));
        while i < n
            invariant
                i <= n <= CHUNK,
                DATA_OFF + CHUNK <= buf@.len() == buf.len(),
                data == buf@.subrange(DATA_OFF as int, DATA_OFF + n),
                out@ == old(out)@ + data.take(i as int),
            decreases n - i,
        {
            out.push(buf[DATA_OFF + i]);
            i = i + 1;
            assert(out@ =~= old(out)@ + data.take(i as int));
        }
        assert(data.take(n as int) =~= data);
        let done: u64 = self.off;
        self.off = done + n as u64;
        if n == 0 {
            Ok(Some(done as usize))
        } else {
            Ok(None)
        }
    }
}

impl FileClient {
    /// The buffer is between 2 and 64 pages long.
    pub open spec fn wf(&self) -> bool {
        0x2000 <= self.len <= 0x4_0000 && self.len % 4096 == 0
    }

    /// A client of the server listening on `listen`, with a reply endpoint and a
    /// buffer of `pages` pages.
    pub fn new(listen: Cap, reply: Cap, buf: Cap, pages: usize) -> (r: Self)
        ensures
            r.wf(),
            r == (FileClient { listen, reply, buf, len: (pages_for(pages as int) * 4096) as usize }),
    {
        FileClient { listen, reply, buf, len: buffer_pages(pages) * 4096 }
    }

    /// The two messages that connect a client: where its replies go, and its
    /// buffer with the number of pages.
    pub fn handshake(&self) -> (r: (Call, Call))
        requires
            self.wf(),
        ensures
            r.0 == (Call {
                nr: SYS_SEND_CAP,
                a0: self.listen.0 as u64,
                a1: self.reply.0 as u64,
                a2: RIGHT_SEND as u64,
                a3: CONNECT,
            }),
            r.1 == (Call {
                nr: SYS_SEND_CAP,
                a0: self.listen.0 as u64,
                a1: self.buf.0 as u64,
                a2: (RIGHT_MAP_READ + RIGHT_MAP_WRITE) as u64,
                a3: (REGISTER_BUF + (self.len as int / 4096) * 0x1_0000_0000) as u64,
            }),
    {
        let pages: u64 = (self.len / 4096) as u64;
        (
            calls::send_cap(self.listen, self.reply, RIGHT_SEND, CONNECT),
            calls::send_cap(
                self.listen,
                self.buf,
                RIGHT_MAP_READ + RIGHT_MAP_WRITE,
                REGISTER_BUF + pages * 0x1_0000_0000,
            ),
        )
    }

    /// The message of a request.
    pub fn message(&self, ask: Ask) -> (r: Call)
        ensures
            r == (Call {
                nr: SYS_SEND,
                a0: self.listen.0 as u64,
                a1: ask.op,
                a2: ask.req_len,
                a3: ask.want,
            }),
    {
        calls::send(self.listen, ask.op, ask.req_len, ask.want)
    }

    /// Tell the server this client is going away.
    pub fn disconnect(&self) -> (r: Call)
        ensures
            r == (Call { nr: SYS_SEND, a0: self.listen.0 as u64, a1: BYE, a2: 0, a3: 0 }),
    {
        calls::send(self.listen, BYE, 0, 0)
    }

    pub fn buffer_cap(&self) -> (r: Cap)
        ensures
            r == self.buf,
    {
        self.buf
    }
}

/// A client registers the pages it asks for, but two at least and 64 at most.
pub proof fn lemma_pages(pages: int)
    ensures
        2 <= pages <= 64 ==> pages_for(pages) == pages,
        pages < 2 ==> pages_for(pages) == 2,
        pages > 64 ==> pages_for(pages) == 64,
{
}

/// A path can be asked for if it has 1 to 255 bytes and the buffer has room for it
/// behind its first 128.
pub proof fn lemma_path_fits(len: int, path: Seq<u8>)
    ensures
        path_fits(len, path) is Ok <==> 1 <= path.len() <= 255 && 128 + path.len() <= len,
        path.len() < 1 || path.len() > 255 ==> path_fits(len, path) == Err::<(), Error>(Error::Inval),
        1 <= path.len() <= 255 && 128 + path.len() > len ==> path_fits(len, path) == Err::<(), Error>(
            Error::NoMem,
        ),
{
}

/// What arrives is put behind what arrived before, byte by byte, and nothing else
/// is touched. No request asks for more than 32768 bytes or for more than is left.
/// The read is over as soon as a reply brings less than was asked for, or the last
/// byte.
pub proof fn lemma_reply_taken(
    a0: &Reading,
    a1: &Reading,
    words: Seq<u64>,
    buf: Seq<u8>,
    out0: Seq<u8>,
    out1: Seq<u8>,
    r: Result<Option<usize>, Error>,
    k: int,
)
    requires
        a0.wf(),
        a0.done < a0.len == out0.len(),
        128 + a0.want() <= buf.len(),
        a1.took(a0, words, buf, out0, out1, r),
    ensures
        1 <= a0.want() <= 32768,
        a0.want() <= a0.len - a0.done,
        a0.want() == 32768 || a0.want() == a0.len - a0.done,
        words[0] != 0 ==> r is Err && out1 == out0 && a1 == a0,
        words[0] == 0 ==> {
            let n = a1.done - a0.done;
            &&& a1.file == a0.file && a1.offset == a0.offset && a1.len == a0.len
            &&& words[1] <= a0.want() ==> n == words[1]
            &&& words[1] > a0.want() ==> n == a0.want()
            &&& 0 <= k < n ==> out1[a0.done + k] == buf[128 + k]
            &&& 0 <= k < out0.len() && !(a0.done <= k < a1.done) ==> out1[k] == out0[k]
            &&& r is Ok
            &&& r->Ok_0 is Some <==> n < a0.want() || a1.done == a1.len
            &&& r->Ok_0 matches Some(total) ==> total == a1.done
        },
{
}

} // verus!
