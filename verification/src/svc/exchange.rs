//! Client and file server together: what one puts into the shared buffer is what
//! the other takes out of it.
use vstd::prelude::*;

use crate::bytes;
use crate::rt::abi::Error;
use crate::rt::file;
use crate::rt::file::{ReadAll, Reading, CHUNK, REC_OFF};
use crate::rt::fsproto;
use crate::rt::fsproto::{DirRec, DATA_OFF, OK};
use crate::svc::fat::{Entry, Fat};
use crate::svc::serve;
use crate::svc::serve::Reply;

verus! {

/// The server reads the path that the client asked for.
pub proof fn lemma_path_carried(b0: Seq<u8>, b1: Seq<u8>, args: Seq<u64>, path: Seq<u8>)
    requires
        file::path_fits(b0.len() as int, path) is Ok,
        vstd::utf8::valid_utf8(path),
        file::put(b0, b1, args, path),
        args[0] == DATA_OFF,
        args[1] == path.len(),
    ensures
        serve::path_of(b1) == Ok::<Seq<u8>, u64>(path),
{
    assert(fsproto::req_word(b1, 0) == args[0]);
    assert(fsproto::req_word(b1, 1) == args[1]);
    let p = b1.subrange(DATA_OFF as int, DATA_OFF + path.len());
    assert(p =~= path) by {
        assert forall|i: int| 0 <= i < path.len() implies p[i] == #[trigger] path[i] by {}
    }
}

/// How much a file has from `offset` on.
pub open spec fn left_of(e: Entry, offset: u64) -> int {
    if offset < e.size {
        e.size - offset
    } else {
        0
    }
}

/// The first `n` bytes of `out` are those of the file from `offset` on.
pub open spec fn is_part(fs: &Fat, disk: spec_fn(int) -> u8, e: Entry, out: Seq<u8>, offset: u64, n: int) -> bool {
    &&& 0 <= n <= left_of(e, offset)
    &&& forall|k: int| 0 <= k < n ==> #[trigger] out[k] == fs.file_byte(disk, e.cluster, offset + k)
}

/// A client that reads an open file gets the bytes of that file, each one in its
/// place: with every reply more of them, and in the end as many as it wanted and
/// the file has from there on. So a short read means end of file.
pub proof fn lemma_client_reads(
    fs: &Fat,
    disk: spec_fn(int) -> u8,
    faulted: bool,
    scratch_len: int,
    s: Seq<Option<Entry>>,
    c0: Seq<u8>,
    b0: Seq<u8>,
    b1: Seq<u8>,
    reply: Reply,
    words: Seq<u64>,
    a0: &Reading,
    a1: &Reading,
    out0: Seq<u8>,
    out1: Seq<u8>,
    r: Result<Option<usize>, Error>,
)
    requires
        a0.done < a0.len == out0.len(),
        DATA_OFF + a0.want() <= c0.len(),
        a0.offset + a0.done <= u64::MAX,
        file::put(
            c0,
            b0,
            seq![
                a0.file.0 as u64,
                (a0.offset + a0.done) as u64,
                DATA_OFF as u64,
                a0.want() as u64,
            ],
            Seq::empty(),
        ),
        serve::read_done(fs, disk, faulted, scratch_len, s, b0, b1, reply),
        reply.0 == OK,
        words[0] == reply.0,
        words[1] == reply.1,
        a1.took(a0, words, b1, out0, out1, r),
        serve::handle_entry(s, a0.file.0 as u64) matches Some(e) ==> is_part(
            fs,
            disk,
            e,
            out0,
            a0.offset,
            a0.done as int,
        ),
    ensures
        serve::handle_entry(s, a0.file.0 as u64) matches Some(e) && {
            &&& is_part(fs, disk, e, out1, a0.offset, a1.done as int)
            &&& r matches Ok(over) && match over {
                None => a0.done < a1.done,
                Some(n) => n == a1.done && n == if left_of(e, a0.offset) < a0.len {
                    left_of(e, a0.offset)
                } else {
                    a0.len as int
                },
            }
        },
{
    let args = seq![
        a0.file.0 as u64,
        (a0.offset + a0.done) as u64,
        DATA_OFF as u64,
        a0.want() as u64,
    ];
    assert(fsproto::req_word(b0, 0) == args[0]);
    assert(fsproto::req_word(b0, 1) == args[1]);
    assert(fsproto::req_word(b0, 2) == args[2]);
    assert(fsproto::req_word(b0, 3) == args[3]);
    let e = serve::handle_entry(s, a0.file.0 as u64)->0;
    assert forall|k: int| 0 <= k < a1.done implies #[trigger] out1[k] == fs.file_byte(
        disk,
        e.cluster,
        a0.offset + k,
    ) by {
        if k < a0.done {
            assert(out1[k] == out0[k]);
        } else {
            assert(out1[k] == b1[DATA_OFF + (k - a0.done)]);
        }
    }
}

/// A record that the server wrote for an entry says the same of it to the client.
proof fn lemma_entry_told(b: Seq<u8>, off: int, e: Entry, got: DirRec)
    requires
        0 <= off,
        off + 16 <= b.len(),
        b.subrange(off, off + 16) == serve::record(e),
        file::record_at(b, off, got),
    ensures
        got.name@ == e.name,
        got.attr == e.attr,
        got.size == e.size,
{
    let w = bytes::le_bytes_u32(e.size);
    let t = b.subrange(off, off + 16);
    let rec = serve::record(e);
    bytes::lemma_le_u32_of_bytes(e.size);
    assert(rec.len() == 16);
    assert(got.name@ =~= e.name) by {
        assert forall|k: int| 0 <= k < 11 implies #[trigger] got.name@[k] == e.name[k] by {
            assert(got.name@[k] == t[k]);
            assert(rec[k] == e.name[k]);
        }
    }
    assert(got.attr == t[11] && rec[11] == e.attr);
    let x = b.subrange(off + 12, off + 12 + 4);
    assert forall|k: int| 0 <= k < 4 implies #[trigger] x[k] == w[k] by {
        assert(x[k] == t[12 + k]);
        assert(rec[12 + k] == w[k]);
    }
    assert(w.subrange(0, 4) =~= x);
    bytes::lemma_le_u32_ext(w, 0, b, off + 12);
}

/// A client that lists a directory sees its entries: as many as it has room for,
/// in their order, each with its name, attributes and size.
pub proof fn lemma_client_lists(
    fs: &Fat,
    disk: spec_fn(int) -> u8,
    c0: Seq<u8>,
    b0: Seq<u8>,
    b1: Seq<u8>,
    reply: Reply,
    path: Seq<u8>,
    max: int,
    out: Seq<DirRec>,
    i: int,
)
    requires
        0 < max <= 2048,
        out.len() == max,
        REC_OFF + max * 16 <= c0.len(),
        file::path_fits(c0.len() as int, path) is Ok,
        vstd::utf8::valid_utf8(path),
        file::put(c0, b0, seq![DATA_OFF as u64, path.len() as u64, max as u64, REC_OFF as u64], path),
        serve::list_done(fs, disk, false, b0, b1, reply),
        reply.0 == OK,
        0 <= i < reply.1,
        file::record_at(b1, REC_OFF + i * 16, out[i]),
    ensures
        serve::list_target(path, serve::found(fs, disk, path)) matches Ok(cluster) && {
            let all = fs.listing(disk, cluster).0;
            &&& fs.listing(disk, cluster).1
            &&& reply.1 == if all.len() < max {
                all.len() as int
            } else {
                max
            }
            &&& out[i].name@ == all[i].name
            &&& out[i].attr == all[i].attr
            &&& out[i].size == all[i].size
        },
{
    let args = seq![DATA_OFF as u64, path.len() as u64, max as u64, REC_OFF as u64];
    lemma_path_carried(c0, b0, args, path);
    assert(fsproto::req_word(b0, 2) == args[2]);
    assert(fsproto::req_word(b0, 3) == args[3]);
    assert(serve::list_answer(fs, disk, path, max as u64, REC_OFF as u64, b0, b1, reply));
    let cluster = serve::list_target(path, serve::found(fs, disk, path))->Ok_0;
    let all = fs.listing(disk, cluster).0;
    let e = all[i];
    assert(b1.subrange(REC_OFF + 16 * i, REC_OFF + 16 * i + 16) == serve::record(e));
    lemma_entry_told(b1, REC_OFF + 16 * i, e, out[i]);
}

/// `out` is what a file has before `off`.
pub open spec fn is_start(fs: &Fat, disk: spec_fn(int) -> u8, e: Entry, out: Seq<u8>, off: u64) -> bool {
    &&& out.len() == off
    &&& off <= e.size
    &&& forall|k: int| 0 <= k < off ==> #[trigger] out[k] == fs.file_byte(disk, e.cluster, k)
}

/// Reading a whole file gives the whole file: with every reply what was read is
/// a longer start of it, and the end is reported exactly when nothing is missing.
pub proof fn lemma_whole_file_read(
    fs: &Fat,
    disk: spec_fn(int) -> u8,
    faulted: bool,
    scratch_len: int,
    s: Seq<Option<Entry>>,
    c0: Seq<u8>,
    b0: Seq<u8>,
    b1: Seq<u8>,
    reply: Reply,
    words: Seq<u64>,
    a0: &ReadAll,
    a1: &ReadAll,
    out0: Seq<u8>,
    out1: Seq<u8>,
    r: Result<Option<usize>, Error>,
)
    requires
        DATA_OFF + CHUNK <= c0.len(),
        file::put(
            c0,
            b0,
            seq![a0.file.0 as u64, a0.off, DATA_OFF as u64, CHUNK as u64],
            Seq::empty(),
        ),
        serve::read_done(fs, disk, faulted, scratch_len, s, b0, b1, reply),
        reply.0 == OK,
        words[0] == reply.0,
        words[1] == reply.1,
        a1.took(a0, words, b1, out0, out1, r),
        serve::handle_entry(s, a0.file.0 as u64) matches Some(e) ==> is_start(fs, disk, e, out0, a0.off),
    ensures
        serve::handle_entry(s, a0.file.0 as u64) matches Some(e) && {
            &&& is_start(fs, disk, e, out1, a1.off)
            &&& a0.off == e.size ==> r == Ok::<Option<usize>, Error>(Some(e.size as usize))
            &&& a0.off < e.size ==> r == Ok::<Option<usize>, Error>(None) && a0.off < a1.off
        },
{
    let args = seq![a0.file.0 as u64, a0.off, DATA_OFF as u64, CHUNK as u64];
    assert(fsproto::req_word(b0, 0) == args[0]);
    assert(fsproto::req_word(b0, 1) == args[1]);
    assert(fsproto::req_word(b0, 2) == args[2]);
    assert(fsproto::req_word(b0, 3) == args[3]);
    let e = serve::handle_entry(s, a0.file.0 as u64)->0;
    assert forall|k: int| 0 <= k < a1.off implies #[trigger] out1[k] == fs.file_byte(disk, e.cluster, k) by {
        if k < a0.off {
            assert(out1[k] == out0[k]);
        } else {
            assert(out1[k] == b1[DATA_OFF + (k - a0.off)]);
        }
    }
}

} // verus!
