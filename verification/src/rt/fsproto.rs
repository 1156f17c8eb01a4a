//! The file service protocol: how a ring-3 service asks `fs` for files.
//!
//! A client connects in two messages, each carrying one capability: the shared
//! buffer that carries request arguments and results, and the endpoint its
//! replies must go to. After that a request is one message and the reply is
//! the next one, in order, so a client keeps exactly one request in flight.
//!
//! A request message is
//!
//! ```text
//! w0 = opcode      w1 = bytes written in the request block      w2 = result bytes wanted
//! ```
//!
//! and the reply carries `[status, arg0, arg1]`. The request block and the
//! result block live at fixed offsets in the buffer, so neither side has to
//! describe its own memory in the message.
use vstd::prelude::*;
use vstd::string::*;

use crate::bytes;
use crate::text;

verus! {

/// Fixed layout of the shared buffer, in bytes from its base.
pub const REQ_OFF: usize = 0;

/// A request never needs more than this; the rest of the first page is slack.
pub const REQ_MAX: usize = 64;

pub const DATA_OFF: usize = 128;

/// Client to server, capability attached: the shared request/result buffer.
/// The high 32 bits of w0 carry its size in pages.
pub const REGISTER_BUF: u64 = 1;

/// Client to server, capability attached: where replies to this client go.
pub const CONNECT: u64 = 2;

/// Request block `[path_off, path_len]`.
pub const OPEN: u64 = 3;

/// Request block `[handle, file_offset, dest_off, count]`.
pub const READ: u64 = 4;

/// Request block `[path_off, path_len]`.
pub const STAT: u64 = 5;

/// Request block `[path_off, path_len, max_records, rec_off]`.
pub const LIST: u64 = 6;

/// Request block `[handle]`.
pub const CLOSE: u64 = 7;

/// The client is going away; the server drops its state.
pub const BYE: u64 = 8;

/// Reply status codes, in `w0`. Anything but [`OK`] leaves `w1`/`w2` unset.
pub const OK: u64 = 0;

pub const NOENT: u64 = 1;

pub const ISDIR: u64 = 2;

pub const NOTDIR: u64 = 3;

pub const BADF: u64 = 4;

pub const IO: u64 = 5;

pub const INVAL: u64 = 6;

pub const NOSPC: u64 = 7;

pub const TOOBIG: u64 = 8;

pub const NOCONN: u64 = 9;

/// Bytes one directory listing record occupies: the 8.3 name, the attribute
/// byte and the size.
pub const DIR_REC: usize = 16;

/// Longest path a client may ask for.
pub const MAX_PATH: usize = 255;

/// Clients a server tracks at once.
pub const MAX_CLIENTS: usize = 16;

/// Largest single `read`. The server copies out of its own cluster buffer, so
/// the real limit is the smaller of this and the registered buffer.
pub const MAX_READ: usize = 0x8000;

/// A directory entry as the server reports it.
#[derive(Clone, Copy, Debug, PartialEq, Eq)]
pub struct DirRec {
    pub name: [u8; 11],
    pub attr: u8,
    pub size: u32,
}

/// How many bytes come before the first blank of `s`, or its length.
pub open spec fn trimmed(s: Seq<u8>) -> int {
    bytes::find(s, 0x20, 0)
}

/// A stored name as it is shown: the base, then a dot and the extension if
/// there is one.
pub open spec fn shown_name(name: Seq<u8>) -> Seq<u8> {
    let base = name.subrange(0, 8);
    let ext = name.subrange(8, 11);
    if ext[0] == 0x20 {
        base.subrange(0, trimmed(base))
    } else {
        base.subrange(0, trimmed(base)) + seq![0x2Eu8] + ext.subrange(0, trimmed(ext))
    }
}

impl DirRec {
    /// The sixteen bytes of a listing record.
    pub open spec fn encoded(self) -> Seq<u8> {
        self.name@ + seq![self.attr] + bytes::le_bytes_u32(self.size)
    }

    /// Whether the record names a directory.
    pub fn is_dir(&self) -> (r: bool)
        ensures
            r == (self.attr & 0x10 != 0),
    {
        self.attr & 0x10 != 0
    }

    /// "NAME    EXT" becomes "NAME.EXT"; a name that is no text becomes "?".
    pub fn display<'a>(&self, out: &'a mut [u8; 13]) -> (r: &'a str)
        ensures
            vstd::utf8::valid_utf8(shown_name(self.name@)) ==> r.spec_bytes() == shown_name(self.name@),
            !vstd::utf8::valid_utf8(shown_name(self.name@)) ==> r@ == "?"@,
            final(out)@.subrange(0, shown_name(self.name@).len() as int) == shown_name(self.name@),
    {
        let mut n: usize = 0;
        let ghost base = self.name@.subrange(0, 8);
        let ghost ext = self.name@.subrange(8, 11);
        while n < 8 && self.name[n] != 0x20
            invariant
                n <= 8,
                base == self.name@.subrange(0, 8),
                trimmed(base) == bytes::find(base, 0x20, n as int),
                forall|k: int| 0 <= k < n ==> #[trigger] out@[k] == base[k],
            decreases 8 - n,
        {
            assert(base[n as int] == self.name@[n as int]);
            out[n] = self.name[n];
            n = n + 1;
        }
        assert(n == trimmed(base)) by {
            if n < 8 {
                assert(base[n as int] == self.name@[n as int]);
            }
        }
        let ghost b = n as int;
        if self.name[8] != 0x20 {
            assert(ext[0] == self.name@[8]);
            out[n] = 0x2E;
            n = n + 1;
            let mut i: usize = 0;
            while i < 3 && self.name[8 + i] != 0x20
                invariant
                    i <= 3,
                    0 <= b <= 8,
                    n == b + 1 + i,
                    ext == self.name@.subrange(8, 11),
                    trimmed(ext) == bytes::find(ext, 0x20, i as int),
                    forall|k: int| 0 <= k < b ==> #[trigger] out@[k] == base[k],
                    out@[b] == 0x2E,
                    forall|k: int| 0 <= k < i ==> #[trigger] out@[b + 1 + k] == ext[k],
                decreases 3 - i,
            {
                assert(ext[i as int] == self.name@[8 + i]);
                out[n] = self.name[8 + i];
                n = n + 1;
                i = i + 1;
            }
            assert(i == trimmed(ext)) by {
                if i < 3 {
                    assert(ext[i as int] == self.name@[8 + i]);
                }
            }
        }
        let shown: &'a [u8] = vstd::slice::slice_subrange(out, 0, n);
        proof {
            assert(ext[0] == self.name@[8]);
            let want = shown_name(self.name@);
            assert forall|k: int| 0 <= k < n implies shown@[k] == #[trigger] want[k] by {
                if k > b {
                    assert(shown@[b + 1 + (k - b - 1)] == ext[k - b - 1]);
                }
            }
            assert(shown@ =~= want);
        }
        match text::utf8_text(shown) {
            Some(s) => s,
            None => "?",
        }
    }
}

/// Metadata about a path.
#[derive(Clone, Copy, Debug, PartialEq, Eq, Structural)]
pub struct Stat {
    pub size: u64,
    pub is_dir: bool,
}

/// The name of a status code, for messages.
pub open spec fn status_text(code: u64) -> Seq<char> {
    if code == OK {
        "ok"@
    } else if code == NOENT {
        "no such file"@
    } else if code == ISDIR {
        "is a directory"@
    } else if code == NOTDIR {
        "not a directory"@
    } else if code == BADF {
        "bad file handle"@
    } else if code == IO {
        "i/o error"@
    } else if code == INVAL {
        "invalid request"@
    } else if code == NOSPC {
        "buffer too small"@
    } else if code == TOOBIG {
        "request too large"@
    } else if code == NOCONN {
        "not connected"@
    } else {
        "unknown status"@
    }
}

pub fn status_name(code: u64) -> (r: &'static str)
    ensures
        r@ == status_text(code),
{
    match code {
        OK => "ok",
        NOENT => "no such file",
        ISDIR => "is a directory",
        NOTDIR => "not a directory",
        BADF => "bad file handle",
        IO => "i/o error",
        INVAL => "invalid request",
        NOSPC => "buffer too small",
        TOOBIG => "request too large",
        NOCONN => "not connected",
        _ => "unknown status",
    }
}

/// Word `index` of a request block, 0 past the end of the buffer.
pub open spec fn req_word(buf: Seq<u8>, index: int) -> u64 {
    if index * 8 + 8 > buf.len() {
        0
    } else {
        bytes::le_u64(buf, index * 8)
    }
}

/// Read a word of a client's request block.
pub fn req_u64(buf: &[u8], index: usize) -> (r: u64)
    requires
        index < usize::MAX / 8,
    ensures
        r == req_word(buf@, index as int),
{
    assert(buf.len() == buf@.len());
    let off: usize = REQ_OFF + index * 8;
    if off + 8 > buf.len() {
        return 0;
    }
    bytes::get_u64(buf, off)
}

/// The bytes a client wrote into the data area, bounds-checked.
pub fn req_bytes(buf: &[u8], off: u64, len: u64) -> (r: Option<&[u8]>)
    ensures
        r is Some <==> off + len <= buf@.len(),
        r matches Some(s) ==> s@ == buf@.subrange(off as int, off + len),
{
    assert(buf.len() == buf@.len());
    let end: u64 = match off.checked_add(len) {
        None => {
            return None;
        },
        Some(e) => e,
    };
    if end > buf.len() as u64 {
        return None;
    }
    Some(vstd::slice::slice_subrange(buf, off as usize, end as usize))
}

/// The mutable part of a client's data area, bounds-checked.
pub fn req_mut(buf: &mut [u8], off: u64, len: u64) -> (r: Option<&mut [u8]>)
    ensures
        r is Some <==> off + len <= old(buf)@.len(),
        r is None ==> final(buf)@ == old(buf)@,
        r matches Some(s) ==> {
            &&& s@ == old(buf)@.subrange(off as int, off + len)
            &&& final(buf)@ == old(buf)@.subrange(0, off as int) + final(s)@ + old(buf)@.subrange(
                off + len,
                old(buf)@.len() as int,
            )
        },
{
    assert(buf.len() == buf@.len());
    let end: u64 = match off.checked_add(len) {
        None => {
            return None;
        },
        Some(e) => e,
    };
    if end > buf.len() as u64 {
        return None;
    }
    let (_, rest) = buf.split_at_mut(off as usize);
    let (part, _) = rest.split_at_mut(len as usize);
    Some(part)
}

/// Write one listing record into a client's data area.
pub fn put_dir_rec(buf: &mut [u8], off: u64, rec: &DirRec) -> (r: bool)
    ensures
        r == (off + DIR_REC <= old(buf)@.len()),
        !r ==> final(buf)@ == old(buf)@,
        r ==> final(buf)@ == old(buf)@.subrange(0, off as int) + rec.encoded() + old(buf)@.subrange(
            off + DIR_REC,
            old(buf)@.len() as int,
        ),
{
    assert(buf.len() == buf@.len());
    if off > u64::MAX - DIR_REC as u64 || off + DIR_REC as u64 > buf.len() as u64 {
        return false;
    }
    let at: usize = off as usize;
    let ghost b0 = buf@;
    let mut i: usize = 0;
    while i < 11
        invariant
            i <= 11,
            at + 16 <= buf@.len() <= usize::MAX,
            buf@.len() == b0.len(),
            forall|k: int| 0 <= k < i ==> #[trigger] buf@[at + k] == rec.name@[k],
            forall|k: int| 0 <= k < b0.len() && !(at <= k < at + i) ==> buf@[k] == b0[k],
        decreases 11 - i,
    {
        buf[at + i] = rec.name[i];
        i = i + 1;
    }
    buf[at + 11] = rec.attr;
    let ghost b1 = buf@;
    bytes::put_u32(buf, at + 12, rec.size);
    proof {
        let want = b0.subrange(0, at as int) + rec.encoded() + b0.subrange(at + 16, b0.len() as int);
        let enc = rec.encoded();
        assert(enc.len() == 16);
        assert forall|k: int| 0 <= k < b0.len() implies buf@[k] == #[trigger] want[k] by {
            if at <= k < at + 11 {
                assert(b1[at + (k - at)] == rec.name@[k - at]);
            } else if at + 12 <= k < at + 16 {
                assert(buf@.subrange(at + 12, at + 16)[k - at - 12] == bytes::le_bytes_u32(rec.size)[k
                    - at - 12]);
            }
        }
        assert(buf@ =~= want);
    }
    true
}

/// The words of a request block follow each other, eight bytes each, and a word
/// that is not all there is 0.
pub proof fn lemma_request_words(buf: Seq<u8>, i: int)
    requires
        0 <= i,
    ensures
        8 * i + 8 <= buf.len() ==> req_word(buf, i) == bytes::le_u64(buf, 8 * i),
        8 * i + 8 > buf.len() ==> req_word(buf, i) == 0,
{
}

/// A record is the eleven bytes of the name, the attributes, and the size.
pub proof fn lemma_record_bytes(r: DirRec, i: int)
    ensures
        r.encoded().len() == 16,
        0 <= i < 11 ==> r.encoded()[i] == r.name@[i],
        r.encoded()[11] == r.attr,
        bytes::le_u32(r.encoded(), 12) == r.size,
{
    let w = bytes::le_bytes_u32(r.size);
    bytes::lemma_le_u32_of_bytes(r.size);
    assert(r.encoded().subrange(12, 16) =~= w.subrange(0, 4));
    bytes::lemma_le_u32_ext(r.encoded(), 12, w, 0);
}

/// A stored name is shown without the blanks that fill it: the part before the dot,
/// and the dot and the part after it if there is one.
pub proof fn lemma_shown(base: Seq<u8>, ext: Seq<u8>, stored: Seq<u8>)
    requires
        base.len() <= 8,
        ext.len() <= 3,
        !base.contains(0x20),
        !ext.contains(0x20),
        stored.len() == 11,
        forall|i: int| 0 <= i < base.len() ==> #[trigger] stored[i] == base[i],
        forall|i: int| base.len() <= i < 8 ==> #[trigger] stored[i] == 0x20,
        forall|i: int| 8 <= i < 8 + ext.len() ==> #[trigger] stored[i] == ext[i - 8],
        forall|i: int| 8 + ext.len() <= i < 11 ==> #[trigger] stored[i] == 0x20,
    ensures
        ext.len() == 0 ==> shown_name(stored) == base,
        ext.len() > 0 ==> shown_name(stored) == base + seq![0x2Eu8] + ext,
{
    let b = stored.subrange(0, 8);
    let e = stored.subrange(8, 11);
    bytes::lemma_find(b, 0x20, 0);
    bytes::lemma_find(e, 0x20, 0);
    assert forall|i: int| 0 <= i < base.len() implies #[trigger] b[i] != 0x20 by {
        assert(b[i] == stored[i]);
        assert(base.contains(base[i]));
    }
    assert forall|i: int| 0 <= i < ext.len() implies #[trigger] e[i] != 0x20 by {
        assert(e[i] == stored[8 + i]);
        assert(ext.contains(ext[i]));
    }
    if base.len() < 8 {
        assert(b[base.len() as int] == stored[base.len() as int]);
    }
    if ext.len() < 3 {
        assert(e[ext.len() as int] == stored[8 + ext.len() as int]);
    }
    assert(trimmed(b) == base.len());
    assert(trimmed(e) == ext.len());
    assert(b.subrange(0, trimmed(b)) =~= base);
    assert(e.subrange(0, trimmed(e)) =~= ext);
    assert(e[0] == stored[8]);
}

} // verus!
