//! The request side of the file service: one buffer per client.
//!
//! Every request names a client task, and the server only ever writes into the
//! buffer that client registered, so a service cannot reach another service's
//! memory.
use vstd::prelude::*;
use vstd::string::*;

use crate::bytes;
use crate::rt::fsproto;
use crate::rt::fsproto::{
    DirRec, BADF, CLOSE, DATA_OFF, DIR_REC, INVAL, IO, ISDIR, LIST, MAX_READ, NOCONN, NOENT, NOSPC,
    NOTDIR, OK, OPEN, READ, REQ_MAX, STAT, TOOBIG,
};
use crate::rt::server::Request;
use crate::svc::fat;
use crate::svc::fat::{BlockDevice, DirEntry, Entry, Fat};
use crate::svc::paths;
use crate::svc::paths::MAX_PATH;
use crate::text;

verus! {

/// Open files, across all clients.
pub const MAX_OPEN: usize = 32;

/// Status and two arguments.
pub type Reply = (u64, u64, u64);

/// What the open-file table says.
pub open spec fn slots(open: Seq<Option<DirEntry>>) -> Seq<Option<Entry>> {
    open.map_values(
        |s: Option<DirEntry>|
            match s {
                Some(e) => Some(e@),
                None => None::<Entry>,
            },
    )
}

/// First free slot at or after `i`, or the length when all are taken.
pub open spec fn free_slot(s: Seq<Option<Entry>>, i: int) -> int
    decreases s.len() - i,
{
    if i >= s.len() {
        s.len() as int
    } else if s[i] is None {
        i
    } else {
        free_slot(s, i + 1)
    }
}

/// The table after opening `e`: it goes to the first free slot.
pub open spec fn opened(s: Seq<Option<Entry>>, e: Entry) -> Seq<Option<Entry>> {
    if free_slot(s, 0) < s.len() {
        s.update(free_slot(s, 0), Some(e))
    } else {
        s
    }
}

/// The entry a handle stands for. A handle is the slot number plus one, so
/// zero always means "none".
pub open spec fn handle_entry(s: Seq<Option<Entry>>, handle: u64) -> Option<Entry> {
    if 1 <= handle <= s.len() {
        s[handle - 1]
    } else {
        None
    }
}

/// The path a request names, or the status that refuses it.
pub open spec fn path_of(buf: Seq<u8>) -> Result<Seq<u8>, u64> {
    let off = fsproto::req_word(buf, 0);
    let len = fsproto::req_word(buf, 1);
    if len == 0 || len > MAX_PATH || off + len > buf.len() {
        Err(INVAL)
    } else {
        let p = buf.subrange(off as int, off + len);
        if vstd::utf8::valid_utf8(p) {
            Ok(p)
        } else {
            Err(INVAL)
        }
    }
}

/// What a path leads to.
pub enum Found {
    /// The directory part leads nowhere.
    NoParent,
    /// The directory cannot be read to its end.
    Unreadable,
    /// The directory has no such entry.
    Missing,
    Item(Entry),
}

/// What `path` leads to on the volume.
pub open spec fn found(fs: &Fat, disk: spec_fn(int) -> u8, path: Seq<u8>) -> Found {
    match paths::parent_of(fs, disk, path) {
        None => Found::NoParent,
        Some(p) => match paths::entry_in(fs, disk, p.0, paths::leaf(path)) {
            Err(_) => Found::Unreadable,
            Ok(None) => Found::Missing,
            Ok(Some(e)) => Found::Item(e),
        },
    }
}

/// What looking a path up gave.
pub enum Located {
    NoParent,
    Unreadable,
    Missing,
    Item(DirEntry),
}

impl Located {
    /// What the result says.
    pub open spec fn as_found(self) -> Found {
        match self {
            Located::NoParent => Found::NoParent,
            Located::Unreadable => Found::Unreadable,
            Located::Missing => Found::Missing,
            Located::Item(e) => Found::Item(e@),
        }
    }
}

/// What every operation keeps: the volume, the device's contents, the size of
/// the scratch memory.
pub open spec fn kept<D: BlockDevice>(
    fs0: &Fat,
    dev0: &D,
    scratch0: Seq<u8>,
    fs1: &Fat,
    dev1: &D,
    scratch1: Seq<u8>,
) -> bool {
    &&& fs1.wf(dev0.disk())
    &&& fs1.same_volume(fs0)
    &&& dev1.disk() == dev0.disk()
    &&& scratch1.len() == scratch0.len()
}

/// Follow a path to its entry.
pub fn locate<D: BlockDevice>(fs: &mut Fat, dev: &mut D, scratch: &mut [u8], path: &str) -> (r: Located)
    requires
        old(fs).wf(old(dev).disk()),
        old(scratch)@.len() >= old(fs).cluster_len(),
    ensures
        kept(old(fs), old(dev), old(scratch)@, final(fs), final(dev), final(scratch)@),
        final(dev).faults() == old(dev).faults() ==> r.as_found() == found(
            old(fs),
            old(dev).disk(),
            path.spec_bytes(),
        ),
        final(dev).faults() != old(dev).faults() ==> r is NoParent || r is Unreadable,
{
    let ghost f0 = *fs;
    let (dir, _) = match paths::split_parent(fs, dev, path, scratch) {
        Ok(v) => v,
        Err(_) => {
            return Located::NoParent;
        },
    };
    proof {
        fat::lemma_same_listing(fs, &f0, dev.disk(), dir);
    }
    match fs.lookup(dev, dir, paths::leaf_name(path), scratch) {
        Ok(Some(e)) => Located::Item(e),
        Ok(None) => Located::Missing,
        Err(_) => Located::Unreadable,
    }
}

/// Read a path out of the client's data area, bounds- and length-checked.
fn take_path(buf: &[u8]) -> (r: Result<&str, u64>)
    ensures
        r is Ok <==> path_of(buf@) is Ok,
        r matches Ok(p) ==> p.spec_bytes() == path_of(buf@)->Ok_0,
        r matches Err(e) ==> e == INVAL && path_of(buf@) == Err::<Seq<u8>, u64>(INVAL),
{
    let off: u64 = fsproto::req_u64(buf, 0);
    let len: u64 = fsproto::req_u64(buf, 1);
    if len == 0 || len > MAX_PATH as u64 {
        return Err(INVAL);
    }
    match fsproto::req_bytes(buf, off, len) {
        None => Err(INVAL),
        Some(b) => match text::utf8_text(b) {
            None => Err(INVAL),
            Some(s) => Ok(s),
        },
    }
}

/// The answer to a request to open what `f` says a path leads to, with the
/// table `s`.
pub open spec fn open_reply(s: Seq<Option<Entry>>, f: Found) -> Reply {
    match f {
        Found::NoParent | Found::Missing => (NOENT, 0, 0),
        Found::Unreadable => (IO, 0, 0),
        Found::Item(e) => if e.attr & 0x10 != 0 {
            (ISDIR, 0, 0)
        } else if free_slot(s, 0) < s.len() {
            (OK, (free_slot(s, 0) + 1) as u64, 0)
        } else {
            (NOSPC, 0, 0)
        },
    }
}

/// What a request to open a file answers and does to the table `s0`. A read
/// that fails on the way opens nothing.
pub open spec fn open_done(
    fs: &Fat,
    disk: spec_fn(int) -> u8,
    faulted: bool,
    s0: Seq<Option<Entry>>,
    s1: Seq<Option<Entry>>,
    buf: Seq<u8>,
    r: Reply,
) -> bool {
    match path_of(buf) {
        Err(e) => r == (e, 0u64, 0u64) && s1 == s0,
        Ok(p) => if faulted {
            (r == (NOENT, 0u64, 0u64) || r == (IO, 0u64, 0u64)) && s1 == s0
        } else {
            let f = found(fs, disk, p);
            &&& r == open_reply(s0, f)
            &&& s1 == if r.0 == OK {
                opened(s0, f->Item_0)
            } else {
                s0
            }
        },
    }
}

/// Open a file: a handle for a path.
pub fn op_open<D: BlockDevice>(
    fs: &mut Fat,
    dev: &mut D,
    scratch: &mut [u8],
    open: &mut [Option<DirEntry>; 32],
    buf: &[u8],
) -> (r: Reply)
    requires
        old(fs).wf(old(dev).disk()),
        old(scratch)@.len() >= old(fs).cluster_len(),
    ensures
        kept(old(fs), old(dev), old(scratch)@, final(fs), final(dev), final(scratch)@),
        open_done(
            old(fs),
            old(dev).disk(),
            final(dev).faults() != old(dev).faults(),
            slots(old(open)@),
            slots(final(open)@),
            buf@,
            r,
        ),
{
    let path: &str = match take_path(buf) {
        Ok(p) => p,
        Err(e) => {
            return (e, 0, 0);
        },
    };
    let entry: DirEntry = match locate(fs, dev, scratch, path) {
        Located::NoParent | Located::Missing => {
            return (NOENT, 0, 0);
        },
        Located::Unreadable => {
            return (IO, 0, 0);
        },
        Located::Item(e) => e,
    };
    if entry.is_dir() {
        return (ISDIR, 0, 0);
    }
    let ghost s0 = slots(open@);
    let i: usize = find_free(open);
    if i < MAX_OPEN {
        open[i] = Some(entry);
        assert(slots(open@) =~= s0.update(i as int, Some(entry@)));
        return (OK, i as u64 + 1, 0);
    }
    (NOSPC, 0, 0)
}

/// First free slot of the table, or its length.
fn find_free(open: &[Option<DirEntry>; 32]) -> (r: usize)
    ensures
        r == free_slot(slots(open@), 0),
        r <= 32,
        r < 32 ==> slots(open@)[r as int] is None,
{
    let mut i: usize = 0;
    while i < MAX_OPEN
        invariant
            i <= 32,
            free_slot(slots(open@), 0) == free_slot(slots(open@), i as int),
        decreases 32 - i,
    {
        assert(slots(open@)[i as int] is None <==> open@[i as int] is None);
        if open[i].is_none() {
            return i;
        }
        i = i + 1;
    }
    i
}

fn handle_of(open: &[Option<DirEntry>; 32], handle: u64) -> (r: Option<DirEntry>)
    ensures
        r is Some <==> handle_entry(slots(open@), handle) is Some,
        r matches Some(e) ==> e@ == handle_entry(slots(open@), handle)->0,
{
    if handle == 0 || handle > 32 {
        return None;
    }
    open[(handle - 1) as usize]
}

/// What a request to read an open file answers and writes.
pub open spec fn read_done(
    fs: &Fat,
    disk: spec_fn(int) -> u8,
    faulted: bool,
    scratch_len: int,
    s: Seq<Option<Entry>>,
    b0: Seq<u8>,
    b1: Seq<u8>,
    r: Reply,
) -> bool {
    &&& b1.len() == b0.len()
    &&& {
        let handle = fsproto::req_word(b0, 0);
        let offset = fsproto::req_word(b0, 1);
        let dest = fsproto::req_word(b0, 2);
        let count = fsproto::req_word(b0, 3);
        let file = handle_entry(s, handle);
        let cl = fs.cluster_len();
        if count == 0 {
            r == (OK, 0u64, 0u64) && b1 == b0
        } else if count > MAX_READ {
            r == (TOOBIG, 0u64, 0u64) && b1 == b0
        } else if file is None {
            r == (BADF, 0u64, 0u64) && b1 == b0
        } else if dest + count > b0.len() {
            r == (NOSPC, 0u64, 0u64) && b1 == b0
        } else {
            let e = file->0;
            let left = if offset < e.size {
                e.size - offset
            } else {
                0
            };
            let n = if left < count {
                left
            } else {
                count as int
            };
            &&& r.0 == OK || r == (IO, 0u64, 0u64)
            &&& r.0 == OK <==> n == 0 || {
                &&& scratch_len >= cl
                &&& fs.readable(
                    disk,
                    e.cluster,
                    offset as int / cl,
                    (offset + n - 1) / cl,
                )
                &&& !faulted
            }
            &&& r.0 == OK ==> r == (OK, n as u64, 0u64)
            &&& r.0 == OK ==> forall|k: int|
                0 <= k < n ==> #[trigger] b1[dest + k] == fs.file_byte(
                    disk,
                    e.cluster,
                    offset + k,
                )
            &&& forall|k: int|
                0 <= k < b0.len() && !(dest <= k < dest + count) ==> b1[k] == b0[k]
        }
    }
}

/// Read part of an open file into the client's data area.
pub fn op_read<D: BlockDevice>(
    fs: &mut Fat,
    dev: &mut D,
    scratch: &mut [u8],
    open: &[Option<DirEntry>; 32],
    buf: &mut [u8],
) -> (r: Reply)
    requires
        old(fs).wf(old(dev).disk()),
    ensures
        kept(old(fs), old(dev), old(scratch)@, final(fs), final(dev), final(scratch)@),
        final(buf)@.len() == old(buf)@.len(),
        read_done(
            old(fs),
            old(dev).disk(),
            final(dev).faults() != old(dev).faults(),
            old(scratch)@.len() as int,
            slots(open@),
            old(buf)@,
            final(buf)@,
            r,
        ),
{
    let handle: u64 = fsproto::req_u64(buf, 0);
    let offset: u64 = fsproto::req_u64(buf, 1);
    let dest: u64 = fsproto::req_u64(buf, 2);
    let count: u64 = fsproto::req_u64(buf, 3);
    if count == 0 {
        return (OK, 0, 0);
    }
    if count > MAX_READ as u64 {
        return (TOOBIG, 0, 0);
    }
    let entry: DirEntry = match handle_of(open, handle) {
        None => {
            return (BADF, 0, 0);
        },
        Some(e) => e,
    };
    let ghost b0 = buf@;
    match fsproto::req_mut(buf, dest, count) {
        None => (NOSPC, 0, 0),
        Some(dst) => match fs.read_at(dev, &entry, offset, scratch, dst) {
            Ok(n) => (OK, n as u64, 0),
            Err(_) => (IO, 0, 0),
        },
    }
}

/// The answer to a request for the metadata of what a path leads to.
pub open spec fn stat_reply(path: Seq<u8>, f: Found) -> Reply {
    if path == seq![paths::SLASH] {
        (OK, 0, 1)
    } else {
        match f {
            Found::NoParent | Found::Missing => (NOENT, 0, 0),
            Found::Unreadable => (IO, 0, 0),
            Found::Item(e) => (
                OK,
                e.size as u64,
                if e.attr & 0x10 != 0 {
                    1
                } else {
                    0
                },
            ),
        }
    }
}

/// Whether a path is the root itself.
fn is_root(path: &str) -> (r: bool)
    ensures
        r == (path.spec_bytes() == seq![paths::SLASH]),
{
    let b: &[u8] = path.as_bytes();
    assert(b.len() == b@.len());
    let r: bool = b.len() == 1 && b[0] == paths::SLASH;
    proof {
        if r {
            assert(b@ =~= seq![paths::SLASH]);
        }
    }
    r
}

/// What a request for metadata answers.
pub open spec fn stat_done(fs: &Fat, disk: spec_fn(int) -> u8, faulted: bool, buf: Seq<u8>, r: Reply) -> bool {
    match path_of(buf) {
        Err(e) => r == (e, 0u64, 0u64),
        Ok(p) => if faulted {
            r == (NOENT, 0u64, 0u64) || r == (IO, 0u64, 0u64)
        } else {
            r == stat_reply(p, found(fs, disk, p))
        },
    }
}

/// Size and kind of what a path leads to.
pub fn op_stat<D: BlockDevice>(fs: &mut Fat, dev: &mut D, scratch: &mut [u8], buf: &[u8]) -> (r: Reply)
    requires
        old(fs).wf(old(dev).disk()),
        old(scratch)@.len() >= old(fs).cluster_len(),
    ensures
        kept(old(fs), old(dev), old(scratch)@, final(fs), final(dev), final(scratch)@),
        stat_done(old(fs), old(dev).disk(), final(dev).faults() != old(dev).faults(), buf@, r),
{
    let path: &str = match take_path(buf) {
        Ok(p) => p,
        Err(e) => {
            return (e, 0, 0);
        },
    };
    if is_root(path) {
        return (OK, 0, 1);
    }
    match locate(fs, dev, scratch, path) {
        Located::NoParent | Located::Missing => (NOENT, 0, 0),
        Located::Unreadable => (IO, 0, 0),
        Located::Item(e) => (
            OK,
            e.size as u64,
            if e.is_dir() {
                1
            } else {
                0
            },
        ),
    }
}

/// The directory to list, or the status that refuses the request.
pub open spec fn list_target(path: Seq<u8>, f: Found) -> Result<u32, u64> {
    if path == seq![paths::SLASH] {
        Ok(0)
    } else {
        match f {
            Found::NoParent | Found::Missing => Err(NOENT),
            Found::Unreadable => Err(IO),
            Found::Item(e) => if e.attr & 0x10 != 0 {
                Ok(e.cluster)
            } else {
                Err(NOTDIR)
            },
        }
    }
}

/// The sixteen bytes of the listing record for an entry.
pub open spec fn record(e: Entry) -> Seq<u8> {
    e.name + seq![e.attr] + bytes::le_bytes_u32(e.size)
}

/// `b1` is `b0` with the records of the first `n` entries stored from `at` on.
pub open spec fn recorded(b0: Seq<u8>, b1: Seq<u8>, at: int, all: Seq<Entry>, n: int) -> bool {
    &&& b1.len() == b0.len()
    &&& forall|i: int|
        #![trigger all[i]]
        0 <= i < n ==> b1.subrange(at + 16 * i, at + 16 * i + 16) == record(all[i])
    &&& forall|k: int| 0 <= k < b0.len() && !(at <= k < at + 16 * n) ==> b1[k] == #[trigger] b0[k]
}

/// What a listing request answers and writes, once the request itself is in
/// order.
pub open spec fn list_answer(
    fs: &Fat,
    disk: spec_fn(int) -> u8,
    path: Seq<u8>,
    max: u64,
    rec_off: u64,
    b0: Seq<u8>,
    b1: Seq<u8>,
    r: Reply,
) -> bool {
    match list_target(path, found(fs, disk, path)) {
        Err(e) => r == (e, 0u64, 0u64) && b1 == b0,
        Ok(cluster) => {
            let (all, ok) = fs.listing(disk, cluster);
            let n = if all.len() < max {
                all.len() as int
            } else {
                max as int
            };
            &&& r == if ok {
                (OK, n as u64, 0u64)
            } else {
                (IO, 0u64, 0u64)
            }
            &&& recorded(b0, b1, rec_off as int, all, n)
        },
    }
}

/// What a listing request answers and writes.
pub open spec fn list_done(
    fs: &Fat,
    disk: spec_fn(int) -> u8,
    faulted: bool,
    b0: Seq<u8>,
    b1: Seq<u8>,
    r: Reply,
) -> bool {
    &&& b1.len() == b0.len()
    &&& {
        let max = fsproto::req_word(b0, 2);
        let rec_off = fsproto::req_word(b0, 3);
        match path_of(b0) {
            Err(e) => r == (e, 0u64, 0u64) && b1 == b0,
            Ok(path) => if max == 0 || max > 2048 {
                r == (INVAL, 0u64, 0u64) && b1 == b0
            } else if rec_off + max * 16 > b0.len() {
                r == (NOSPC, 0u64, 0u64) && b1 == b0
            } else {
                &&& !faulted ==> list_answer(
                    fs,
                    disk,
                    path,
                    max,
                    rec_off,
                    b0,
                    b1,
                    r,
                )
                &&& faulted ==> r == (NOENT, 0u64, 0u64) || r == (
                    IO,
                    0u64,
                    0u64,
                )
                &&& forall|k: int|
                    0 <= k < b0.len() && !(rec_off <= k < rec_off + 16 * max) ==> b1[k]
                        == #[trigger] b0[k]
            },
        }
    }
}

/// List a directory into the client's data area.
pub fn op_list<D: BlockDevice>(fs: &mut Fat, dev: &mut D, scratch: &mut [u8], buf: &mut [u8]) -> (r: Reply)
    requires
        old(fs).wf(old(dev).disk()),
        old(scratch)@.len() >= old(fs).cluster_len(),
    ensures
        kept(old(fs), old(dev), old(scratch)@, final(fs), final(dev), final(scratch)@),
        final(buf)@.len() == old(buf)@.len(),
        list_done(
            old(fs),
            old(dev).disk(),
            final(dev).faults() != old(dev).faults(),
            old(buf)@,
            final(buf)@,
            r,
        ),
{
    let ghost f0 = *fs;
    let ghost disk = dev.disk();
    let ghost b0 = buf@;
    let max: u64 = fsproto::req_u64(buf, 2);
    let rec_off: u64 = fsproto::req_u64(buf, 3);
    let ghost path0 = path_of(b0);
    let cluster: u32;
    {
        let path: &str = match take_path(buf) {
            Ok(p) => p,
            Err(e) => {
                return (e, 0, 0);
            },
        };
        if max == 0 || max > (MAX_READ / DIR_REC) as u64 {
            return (INVAL, 0, 0);
        }
        // Make sure the whole listing fits before touching anything.
        if fsproto::req_bytes(buf, rec_off, max * DIR_REC as u64).is_none() {
            return (NOSPC, 0, 0);
        }
        if is_root(path) {
            cluster = 0;
        } else {
            match locate(fs, dev, scratch, path) {
                Located::NoParent | Located::Missing => {
                    return (NOENT, 0, 0);
                },
                Located::Unreadable => {
                    return (IO, 0, 0);
                },
                Located::Item(e) => {
                    if !e.is_dir() {
                        return (NOTDIR, 0, 0);
                    }
                    cluster = e.cluster;
                },
            }
        }
    }
    proof {
        fat::lemma_same_listing(fs, &f0, disk, cluster);
    }
    let ghost all = f0.listing(disk, cluster);
    let mut list: Vec<DirEntry> = Vec::new();
    assert(fat::entries(list@) =~= Seq::<Entry>::empty());
    let result: Result<(), ()> = fs.read_dir(dev, cluster, scratch, &mut list);
    proof {
        assert(Seq::<Entry>::empty() + all.0 =~= all.0);
    }
    let count: u64 = put_records(buf, rec_off, max, &list);
    if result.is_err() {
        return (IO, 0, 0);
    }
    (OK, count, 0)
}

/// Store the records of the first `max` entries from `off` on. Returns how many
/// there are.
fn put_records(buf: &mut [u8], off: u64, max: u64, list: &Vec<DirEntry>) -> (r: u64)
    requires
        max <= 2048,
        off + max * 16 <= old(buf)@.len(),
    ensures
        r == if list@.len() < max {
            list@.len() as int
        } else {
            max as int
        },
        recorded(old(buf)@, final(buf)@, off as int, fat::entries(list@), r as int),
{
    let ghost b0 = buf@;
    let ghost all = fat::entries(list@);
    let mut i: usize = 0;
    assert(buf.len() == buf@.len());
    while i < list.len() && (i as u64) < max
        invariant
            i <= list@.len(),
            i <= max <= 2048,
            b0 == old(buf)@,
            all == fat::entries(list@),
            off + max * 16 <= buf@.len() <= usize::MAX,
            recorded(b0, buf@, off as int, all, i as int),
        decreases list@.len() - i,
    {
        let e: DirEntry = list[i];
        let rec: DirRec = DirRec { name: e.name, attr: e.attr, size: e.size };
        let ghost b1 = buf@;
        let at: u64 = off + i as u64 * 16;
        let done: bool = fsproto::put_dir_rec(buf, at, &rec);
        proof {
            assert(done);
            assert(all[i as int] == e@);
            assert(rec.encoded() =~= record(all[i as int]));
            assert(rec.encoded().len() == 16);
            assert forall|j: int|
                #![trigger all[j]]
                0 <= j < i + 1 implies buf@.subrange(off + 16 * j, off + 16 * j + 16) == record(all[j]) by {
                if j == i {
                    assert(buf@.subrange(at as int, at + 16) =~= rec.encoded());
                } else {
                    assert(buf@.subrange(off + 16 * j, off + 16 * j + 16) =~= b1.subrange(
                        off + 16 * j,
                        off + 16 * j + 16,
                    ));
                }
            }
            assert forall|k: int| 0 <= k < b0.len() && !(off <= k < off + 16 * (i + 1)) implies buf@[k]
                == #[trigger] b0[k] by {
                assert(b1[k] == b0[k]);
            }
        }
        i = i + 1;
    }
    i as u64
}

/// What a request to close a file answers and does to the table `s0`.
pub open spec fn close_done(s0: Seq<Option<Entry>>, s1: Seq<Option<Entry>>, buf: Seq<u8>, r: Reply) -> bool {
    let handle = fsproto::req_word(buf, 0);
    if handle_entry(s0, handle) is Some {
        &&& r == (OK, 0u64, 0u64)
        &&& s1 == s0.update(handle - 1, None)
    } else {
        &&& r == (BADF, 0u64, 0u64)
        &&& s1 == s0
    }
}

/// Close a file.
pub fn op_close(open: &mut [Option<DirEntry>; 32], buf: &[u8]) -> (r: Reply)
    ensures
        close_done(slots(old(open)@), slots(final(open)@), buf@, r),
{
    let handle: u64 = fsproto::req_u64(buf, 0);
    let ghost s0 = slots(open@);
    if handle == 0 || handle > 32 {
        return (BADF, 0, 0);
    }
    let i: usize = (handle - 1) as usize;
    if open[i].is_some() {
        open[i] = None;
        assert(slots(open@) =~= s0.update(i as int, None));
        (OK, 0, 0)
    } else {
        (BADF, 0, 0)
    }
}

/// Why a request is refused before it is looked at, with a client buffer of
/// `len` bytes if there is one.
pub open spec fn refusal(req: Request, len: Option<int>) -> Option<u64> {
    if req.req_len == 0 || req.req_len > REQ_MAX {
        Some(INVAL)
    } else if len is None {
        Some(NOCONN)
    } else if len->0 < DATA_OFF {
        Some(NOSPC)
    } else if OPEN <= req.op <= CLOSE {
        None
    } else {
        Some(INVAL)
    }
}

/// What a request answers and does, with the open-file table going from `s0` to
/// `s1` and the client's buffer from `b0` to `b1`.
pub open spec fn answered(
    fs: &Fat,
    disk: spec_fn(int) -> u8,
    faulted: bool,
    scratch_len: int,
    s0: Seq<Option<Entry>>,
    s1: Seq<Option<Entry>>,
    b0: Seq<u8>,
    b1: Seq<u8>,
    req: Request,
    r: Reply,
) -> bool {
    match refusal(req, Some(b0.len() as int)) {
        Some(e) => r == (e, 0u64, 0u64) && s1 == s0 && b1 == b0,
        None => if req.op == OPEN {
            open_done(fs, disk, faulted, s0, s1, b0, r) && b1 == b0
        } else if req.op == READ {
            read_done(fs, disk, faulted, scratch_len, s0, b0, b1, r) && s1 == s0
        } else if req.op == STAT {
            stat_done(fs, disk, faulted, b0, r) && s1 == s0 && b1 == b0
        } else if req.op == LIST {
            list_done(fs, disk, faulted, b0, b1, r) && s1 == s0
        } else {
            close_done(s0, s1, b0, r) && b1 == b0
        },
    }
}

/// Answer a request that names a client buffer. The client says how much of
/// the request block it filled; anything past the block is refused rather than
/// reading whatever happens to be there.
pub fn dispatch<D: BlockDevice>(
    fs: &mut Fat,
    dev: &mut D,
    scratch: &mut [u8],
    open: &mut [Option<DirEntry>; 32],
    buf: Option<&mut [u8]>,
    req: &Request,
) -> (r: Reply)
    requires
        old(fs).wf(old(dev).disk()),
        old(scratch)@.len() >= old(fs).cluster_len(),
    ensures
        kept(old(fs), old(dev), old(scratch)@, final(fs), final(dev), final(scratch)@),
        buf is None ==> r == (refusal(*req, None)->0, 0u64, 0u64) && slots(final(open)@) == slots(
            old(open)@,
        ),
        buf matches Some(b) ==> answered(
            old(fs),
            old(dev).disk(),
            final(dev).faults() != old(dev).faults(),
            old(scratch)@.len() as int,
            slots(old(open)@),
            slots(final(open)@),
            b@,
            final(b)@,
            *req,
            r,
        ),
{
    if req.req_len == 0 || req.req_len > REQ_MAX as u64 {
        return (INVAL, 0, 0);
    }
    let buf: &mut [u8] = match buf {
        None => {
            return (NOCONN, 0, 0);
        },
        Some(b) => b,
    };
    if buf.len() < DATA_OFF {
        return (NOSPC, 0, 0);
    }
    match req.op {
        OPEN => op_open(fs, dev, scratch, open, buf),
        READ => op_read(fs, dev, scratch, open, buf),
        STAT => op_stat(fs, dev, scratch, buf),
        LIST => op_list(fs, dev, scratch, buf),
        CLOSE => op_close(open, buf),
        _ => (INVAL, 0, 0),
    }
}

/// Closing a handle right after opening it gives back the table as it was, and
/// the handle stands for the file in between.
pub proof fn lemma_open_close(s: Seq<Option<Entry>>, e: Entry)
    requires
        free_slot(s, 0) < s.len() <= u64::MAX,
    ensures
        ({
            let h = (free_slot(s, 0) + 1) as u64;
            &&& handle_entry(s, h) is None
            &&& handle_entry(opened(s, e), h) == Some(e)
            &&& opened(s, e).update(h - 1, None) == s
        }),
{
    lemma_free_slot(s, 0);
    let i = free_slot(s, 0);
    assert(opened(s, e).update(i, None) =~= s);
}

/// Opening a file leaves every other handle alone.
pub proof fn lemma_open_keeps(s: Seq<Option<Entry>>, e: Entry, h: u64)
    requires
        handle_entry(s, h) is Some,
    ensures
        handle_entry(opened(s, e), h) == handle_entry(s, h),
{
    lemma_free_slot(s, 0);
}

proof fn lemma_free_slot(s: Seq<Option<Entry>>, i: int)
    requires
        0 <= i <= s.len(),
    ensures
        i <= free_slot(s, i) <= s.len(),
        free_slot(s, i) < s.len() ==> s[free_slot(s, i)] is None,
    decreases s.len() - i,
{
    if i < s.len() && !(s[i] is None) {
        lemma_free_slot(s, i + 1);
    }
}

/// What a path leads to is the first entry of the stored name of its last
/// component, in the directory that the rest of it leads to, and there is nothing
/// only where there is no such directory or no such entry.
pub proof fn lemma_found(fs: &Fat, disk: spec_fn(int) -> u8, path: Seq<u8>, i: int)
    ensures
        match paths::parent_of(fs, disk, path) {
            None => found(fs, disk, path) is NoParent,
            Some((dir, _)) => {
                let (all, ok) = fs.listing(disk, dir);
                match fat::short_name(paths::leaf(path)) {
                    None => found(fs, disk, path) is Missing,
                    Some(name) => {
                        &&& !ok ==> found(fs, disk, path) is Unreadable
                        &&& ok && 0 <= i < all.len() && all[i].name == name && (forall|k: int|
                            0 <= k < i ==> (#[trigger] all[k]).name != name) ==> found(fs, disk, path)
                            == Found::Item(all[i])
                        &&& ok && (forall|k: int| 0 <= k < all.len() ==> (#[trigger] all[k]).name != name) ==> found(
                            fs,
                            disk,
                            path,
                        ) is Missing
                    },
                }
            },
        },
{
    if let Some((dir, _)) = paths::parent_of(fs, disk, path) {
        let (all, ok) = fs.listing(disk, dir);
        if let Some(name) = fat::short_name(paths::leaf(path)) {
            if 0 <= i < all.len() && all[i].name == name && (forall|k: int|
                0 <= k < i ==> (#[trigger] all[k]).name != name) {
                fat::lemma_first_named(all, name, 0, i);
            }
            if forall|k: int| 0 <= k < all.len() ==> (#[trigger] all[k]).name != name {
                fat::lemma_first_named(all, name, 0, all.len() as int);
            }
        }
    }
}

/// A file that is there is opened under a handle that was free, as long as one of
/// the 32 is; no other handle changes. A directory is not opened, and what is not
/// there is reported as such.
pub proof fn lemma_open_answers(
    fs: &Fat,
    disk: spec_fn(int) -> u8,
    s0: Seq<Option<Entry>>,
    s1: Seq<Option<Entry>>,
    buf: Seq<u8>,
    path: Seq<u8>,
    r: Reply,
    h: int,
)
    requires
        s0.len() == 32,
        path_of(buf) == Ok::<Seq<u8>, u64>(path),
        open_done(fs, disk, false, s0, s1, buf, r),
    ensures
        r.0 != 0 ==> r.1 == 0 && s1 == s0,
        r.2 == 0,
        match found(fs, disk, path) {
            Found::Item(e) => {
                &&& e.attr & 0x10 != 0 ==> r.0 == 2
                &&& e.attr & 0x10 == 0 ==> r.0 == 0 || r.0 == 7
                &&& r.0 == 0 ==> 1 <= r.1 <= 32 && s0[r.1 - 1] is None && s1[r.1 - 1] == Some(e)
                &&& r.0 == 0 && 1 <= h <= 32 && h != r.1 ==> s1[h - 1] == s0[h - 1]
                &&& r.0 == 7 && 1 <= h <= 32 ==> s0[h - 1] is Some
            },
            Found::NoParent | Found::Missing => r.0 == 1,
            Found::Unreadable => r.0 == 5,
        },
{
    lemma_free_slot(s0, 0);
    lemma_all_taken(s0, 0, h - 1);
}

proof fn lemma_all_taken(s: Seq<Option<Entry>>, i: int, k: int)
    requires
        0 <= i,
    ensures
        i <= k < free_slot(s, i) && k < s.len() ==> s[k] is Some,
    decreases k - i,
{
    if i < k && i < s.len() && s[i] is Some {
        lemma_all_taken(s, i + 1, k);
    }
}

/// Reading an open file gives the bytes from the offset that was asked for, as many
/// as were asked for or the file still has, where they were asked for, and writes
/// nowhere else. It is refused only for a handle that is not open, for more than
/// 32768 bytes and for bytes that do not fit the buffer, and fails only where the
/// disk does or the file's chain ends early.
pub proof fn lemma_read_answers(
    fs: &Fat,
    disk: spec_fn(int) -> u8,
    faulted: bool,
    scratch_len: int,
    s: Seq<Option<Entry>>,
    b0: Seq<u8>,
    b1: Seq<u8>,
    r: Reply,
    k: int,
)
    requires
        s.len() == 32,
        b0.len() >= 32,
        read_done(fs, disk, faulted, scratch_len, s, b0, b1, r),
    ensures
        ({
            let handle = bytes::le_u64(b0, 0);
            let offset = bytes::le_u64(b0, 8);
            let dest = bytes::le_u64(b0, 16);
            let count = bytes::le_u64(b0, 24);
            let cl = fs.sectors_per_cluster * 512;
            &&& count == 0 ==> r == (0u64, 0u64, 0u64)
            &&& count > 32768 ==> r == (8u64, 0u64, 0u64)
            &&& 0 < count <= 32768 && (handle < 1 || handle > 32 || s[handle - 1] is None) ==> r == (4u64, 0u64, 0u64)
            &&& 0 < count <= 32768 && 1 <= handle <= 32 ==> (s[handle - 1] matches Some(e) ==> {
                &&& dest + count > b0.len() ==> r == (7u64, 0u64, 0u64)
                &&& dest + count <= b0.len() ==> {
                    &&& r.0 == 0 || r == (5u64, 0u64, 0u64)
                    &&& offset >= e.size ==> r == (0u64, 0u64, 0u64)
                    &&& r.0 == 0 && offset + count <= e.size ==> r.1 == count
                    &&& r.0 == 0 && offset < e.size < offset + count ==> r.1 == e.size - offset
                    &&& r.0 == 0 && 0 <= k < r.1 ==> b1[dest + k] == fs.file_byte(disk, e.cluster, offset + k)
                    &&& r.0 == 5 && !faulted && scratch_len >= cl ==> {
                        let last = if offset + count <= e.size {
                            offset + count - 1
                        } else {
                            e.size - 1
                        };
                        !fs.readable(disk, e.cluster, offset as int / cl, last / cl)
                    }
                }
            })
            &&& 0 <= k < b0.len() && !(dest <= k < dest + count) ==> b1[k] == b0[k]
        }),
{
    assert(fsproto::req_word(b0, 0) == bytes::le_u64(b0, 0));
    assert(fsproto::req_word(b0, 1) == bytes::le_u64(b0, 8));
    assert(fsproto::req_word(b0, 2) == bytes::le_u64(b0, 16));
    assert(fsproto::req_word(b0, 3) == bytes::le_u64(b0, 24));
}

/// What is told of a path: its size and whether it is a directory. The root is a
/// directory, whatever the volume holds.
pub proof fn lemma_stat_answers(fs: &Fat, disk: spec_fn(int) -> u8, buf: Seq<u8>, path: Seq<u8>, r: Reply)
    requires
        path_of(buf) == Ok::<Seq<u8>, u64>(path),
        stat_done(fs, disk, false, buf, r),
    ensures
        path == seq![0x2Fu8] ==> r == (0u64, 0u64, 1u64),
        path != seq![0x2Fu8] ==> match found(fs, disk, path) {
            Found::Item(e) => r.0 == 0 && r.1 == e.size && (r.2 == 0 || r.2 == 1) && (r.2 == 1 <==> e.attr & 0x10 != 0),
            Found::NoParent | Found::Missing => r == (1u64, 0u64, 0u64),
            Found::Unreadable => r == (5u64, 0u64, 0u64),
        },
{
}

/// A listing is of a directory: of the root for `/`, and of nothing that is a file.
/// As many entries are stored as the directory has and the client asked for, in
/// order and sixteen bytes each, and nothing else is written.
pub proof fn lemma_list_answers(
    fs: &Fat,
    disk: spec_fn(int) -> u8,
    b0: Seq<u8>,
    b1: Seq<u8>,
    path: Seq<u8>,
    r: Reply,
    k: int,
)
    requires
        b0.len() >= 32,
        path_of(b0) == Ok::<Seq<u8>, u64>(path),
        list_done(fs, disk, false, b0, b1, r),
    ensures
        ({
            let max = bytes::le_u64(b0, 16);
            let at = bytes::le_u64(b0, 24);
            let what = found(fs, disk, path);
            let root = path == seq![0x2Fu8];
            &&& max == 0 || max > 2048 ==> r == (6u64, 0u64, 0u64)
            &&& 1 <= max <= 2048 && at + 16 * max > b0.len() ==> r == (7u64, 0u64, 0u64)
            &&& 1 <= max <= 2048 && at + 16 * max <= b0.len() ==> {
                &&& !root && (what is NoParent || what is Missing) ==> r == (1u64, 0u64, 0u64)
                &&& !root && what is Unreadable ==> r == (5u64, 0u64, 0u64)
                &&& !root && (what matches Found::Item(e) ==> e.attr & 0x10 == 0) && what is Item ==> r == (
                    3u64,
                    0u64,
                    0u64,
                )
                &&& root || (what is Item && what->Item_0.attr & 0x10 != 0) ==> {
                    let (all, ok) = fs.listing(
                        disk,
                        if root {
                            0
                        } else {
                            what->Item_0.cluster
                        },
                    );
                    &&& !ok ==> r == (5u64, 0u64, 0u64)
                    &&& ok && all.len() <= max ==> r == (0u64, all.len() as u64, 0u64)
                    &&& ok && all.len() > max ==> r == (0u64, max, 0u64)
                    &&& ok && 0 <= k < r.1 ==> {
                        let t = b1.subrange(at + 16 * k, at + 16 * k + 16);
                        &&& all[k].name.len() == 11 ==> t.subrange(0, 11) == all[k].name && t[11] == all[k].attr
                            && bytes::le_u32(t, 12) == all[k].size
                    }
                }
            }
            &&& 0 <= k < b0.len() && !(at <= k < at + 16 * max) ==> b1[k] == b0[k]
        }),
{
    assert(fsproto::req_word(b0, 2) == bytes::le_u64(b0, 16));
    assert(fsproto::req_word(b0, 3) == bytes::le_u64(b0, 24));
    let max = bytes::le_u64(b0, 16);
    let at = bytes::le_u64(b0, 24);
    if let Ok(cluster) = list_target(path, found(fs, disk, path)) {
        let (all, ok) = fs.listing(disk, cluster);
        if 0 <= k < all.len() && all[k].name.len() == 11 {
            let e = all[k];
            let t = record(e);
            bytes::lemma_le_u32_of_bytes(e.size);
            assert(t.subrange(0, 11) =~= e.name);
            assert(t.subrange(12, 16) =~= bytes::le_bytes_u32(e.size).subrange(0, 4));
            bytes::lemma_le_u32_ext(t, 12, bytes::le_bytes_u32(e.size), 0);
        }
    }
}

/// A handle that is open can be closed, and only such a one; it stands for nothing
/// then, and no other handle changes.
pub proof fn lemma_close_answers(s0: Seq<Option<Entry>>, s1: Seq<Option<Entry>>, buf: Seq<u8>, r: Reply, h: int)
    requires
        s0.len() == 32,
        buf.len() >= 32,
        close_done(s0, s1, buf, r),
    ensures
        ({
            let handle = bytes::le_u64(buf, 0);
            &&& 1 <= handle <= 32 && s0[handle - 1] is Some ==> r == (0u64, 0u64, 0u64) && s1[handle - 1] is None
            &&& handle < 1 || handle > 32 || s0[handle - 1] is None ==> r == (4u64, 0u64, 0u64) && s1 == s0
            &&& 1 <= h <= 32 && h != handle ==> s1[h - 1] == s0[h - 1]
        }),
{
    assert(fsproto::req_word(buf, 0) == bytes::le_u64(buf, 0));
}

/// Which requests are looked at: those of a client with a buffer of 128 bytes or
/// more whose request block has between 1 and 64 bytes, for one of the five
/// operations. The path lies in the buffer and has between 1 and 255 bytes.
pub proof fn lemma_refused(req: Request, len: int, buf: Seq<u8>)
    requires
        buf.len() >= 32,
    ensures
        refusal(req, Some(len)) is None <==> 1 <= req.req_len <= 64 && len >= 128 && 3 <= req.op <= 7,
        1 <= req.req_len <= 64 ==> refusal(req, None) == Some(9u64),
        1 <= req.req_len <= 64 && len < 128 ==> refusal(req, Some(len)) == Some(7u64),
        req.req_len < 1 || req.req_len > 64 ==> refusal(req, Some(len)) == Some(6u64),
        ({
            let off = bytes::le_u64(buf, 0);
            let n = bytes::le_u64(buf, 8);
            let p = buf.subrange(off as int, off + n);
            &&& 1 <= n <= 255 && off + n <= buf.len() && vstd::utf8::valid_utf8(p) ==> path_of(buf) == Ok::<
                Seq<u8>,
                u64,
            >(p)
            &&& n < 1 || n > 255 || off + n > buf.len() ==> path_of(buf) == Err::<Seq<u8>, u64>(6)
        }),
{
    assert(fsproto::req_word(buf, 0) == bytes::le_u64(buf, 0));
    assert(fsproto::req_word(buf, 1) == bytes::le_u64(buf, 8));
}

/// Every number is one operation. Asking about a file or a directory leaves the
/// buffer alone, reading and listing leave the open files alone, and a request
/// that is refused leaves both.
pub proof fn lemma_operations(
    fs: &Fat,
    disk: spec_fn(int) -> u8,
    faulted: bool,
    scratch_len: int,
    s0: Seq<Option<Entry>>,
    s1: Seq<Option<Entry>>,
    b0: Seq<u8>,
    b1: Seq<u8>,
    req: Request,
    r: Reply,
)
    requires
        answered(fs, disk, faulted, scratch_len, s0, s1, b0, b1, req, r),
    ensures
        match refusal(req, Some(b0.len() as int)) {
            Some(e) => r.0 == e && r.1 == 0 && r.2 == 0 && s1 == s0 && b1 == b0,
            None => {
                &&& req.op == 3 ==> open_done(fs, disk, faulted, s0, s1, b0, r)
                &&& req.op == 4 ==> read_done(fs, disk, faulted, scratch_len, s0, b0, b1, r)
                &&& req.op == 5 ==> stat_done(fs, disk, faulted, b0, r)
                &&& req.op == 6 ==> list_done(fs, disk, faulted, b0, b1, r)
                &&& req.op == 7 ==> close_done(s0, s1, b0, r)
                &&& req.op == 3 || req.op == 5 || req.op == 7 ==> b1 == b0
                &&& req.op == 4 || req.op == 5 || req.op == 6 ==> s1 == s0
            },
        },
{
}

} // verus!
