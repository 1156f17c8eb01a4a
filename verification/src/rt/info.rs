//! The boot info page: what the supervisor tells a new ring-3 task.
use vstd::prelude::*;
use vstd::slice::slice_subrange;
use vstd::string::*;

use crate::bytes;
use crate::rt::abi::Cap;
use crate::text;

verus! {

/// The page the supervisor fills before a ring-3 task starts.
pub const INFO_BASE: u64 = 0x7fff_fffd_0000;

/// First word of a valid boot info page.
pub const INFO_MAGIC: u64 = 0x3148_4F4F_425A_314B;

/// The page layout this runtime understands.
pub const INFO_LAYOUT: u64 = 1;

/// Bytes of the boot info record, before the launch arguments.
pub const INFO_SIZE: usize = 56;

/// How much of the boot info page's argument area the kernel fills.
pub const MAX_ARGS: usize = 1024;

/// The first bytes of every ring-3 task, written by the supervisor.
#[derive(Clone, Copy, Debug, PartialEq, Eq, Structural)]
pub struct BootInfo {
    pub magic: u64,
    pub layout: u64,
    pub task_id: u32,
    pub _pad: u32,
    pub heap_base: u64,
    pub heap_size: u64,
    pub stack_top: u64,
    pub arg_len: u64,
}

/// The record a page starts with.
pub open spec fn info_record(page: Seq<u8>) -> BootInfo {
    BootInfo {
        magic: bytes::le_u64(page, 0),
        layout: bytes::le_u64(page, 8),
        task_id: bytes::le_u32(page, 16),
        _pad: bytes::le_u32(page, 20),
        heap_base: bytes::le_u64(page, 24),
        heap_size: bytes::le_u64(page, 32),
        stack_top: bytes::le_u64(page, 40),
        arg_len: bytes::le_u64(page, 48),
    }
}

/// The kernel's description of the running task, or `None` if the page is too short
/// for one or was written by a kernel this runtime does not understand.
pub open spec fn info_of(page: Seq<u8>) -> Option<BootInfo> {
    let r = info_record(page);
    if page.len() >= INFO_SIZE && r.magic == INFO_MAGIC && r.layout == INFO_LAYOUT {
        Some(r)
    } else {
        None
    }
}

/// Read the boot info record off the page at [`INFO_BASE`].
pub fn boot_info(page: &[u8]) -> (r: Option<BootInfo>)
    ensures
        r == info_of(page@),
{
    if page.len() < INFO_SIZE {
        return None;
    }
    let magic: u64 = bytes::get_u64(page, 0);
    let layout: u64 = bytes::get_u64(page, 8);
    if magic != INFO_MAGIC || layout != INFO_LAYOUT {
        return None;
    }
    Some(
        BootInfo {
            magic,
            layout,
            task_id: bytes::get_u32(page, 16),
            _pad: bytes::get_u32(page, 20),
            heap_base: bytes::get_u64(page, 24),
            heap_size: bytes::get_u64(page, 32),
            stack_top: bytes::get_u64(page, 40),
            arg_len: bytes::get_u64(page, 48),
        },
    )
}

/// How many of the first `n` characters are left without the NULs at their end.
pub open spec fn nul_end(s: Seq<char>, n: int) -> int
    decreases n,
{
    if n <= 0 {
        0
    } else if s[n - 1] == '\0' {
        nul_end(s, n - 1)
    } else {
        n
    }
}

/// The bytes of the launch arguments on a page.
pub open spec fn arg_bytes(page: Seq<u8>, info: BootInfo) -> Seq<u8> {
    let n = if info.arg_len < MAX_ARGS {
        info.arg_len as int
    } else {
        MAX_ARGS as int
    };
    page.subrange(INFO_SIZE as int, INFO_SIZE + n)
}

/// The launch arguments on a page: nothing if there is no record or the
/// arguments are no text, and no NULs at the end.
pub open spec fn args_text(page: Seq<u8>) -> Seq<char> {
    match info_of(page) {
        None => Seq::empty(),
        Some(info) => match text::text_in(arg_bytes(page, info)) {
            None => Seq::empty(),
            Some(t) => t.subrange(0, nul_end(t, t.len() as int)),
        },
    }
}

/// The launch arguments the spawner attached, as `key=value` lines.
pub fn args(page: &[u8]) -> (r: &str)
    requires
        page@.len() >= INFO_SIZE + MAX_ARGS,
    ensures
        r@ == args_text(page@),
{
    proof {
        reveal_strlit("");
    }
    let info: BootInfo = match boot_info(page) {
        None => {
            assert(""@ =~= Seq::empty());
            return "";
        },
        Some(i) => i,
    };
    let n: usize = if info.arg_len < MAX_ARGS as u64 {
        info.arg_len as usize
    } else {
        MAX_ARGS
    };
    match text::text_of(slice_subrange(page, INFO_SIZE, INFO_SIZE + n)) {
        None => {
            assert(""@ =~= Seq::empty());
            ""
        },
        Some(s) => {
            let mut k: usize = s.unicode_len();
            while k > 0 && s.get_char(k - 1) == '\0'
                invariant
                    k <= s@.len(),
                    nul_end(s@, s@.len() as int) == nul_end(s@, k as int),
                decreases k,
            {
                k = k - 1;
            }
            s.substring_char(0, k)
        },
    }
}

/// A line as `key=value`, with the white space around both taken off.
pub open spec fn key_value(line: Seq<char>) -> Option<(Seq<char>, Seq<char>)> {
    let e = text::index_of(line, '=', 0);
    if e < line.len() {
        Some(
            (
                text::trim(line.subrange(0, e)),
                text::trim(line.subrange(e + 1, line.len() as int)),
            ),
        )
    } else {
        None
    }
}

/// The value of the first of these `key=value` pairs, from number `i` on, that
/// has a key.
pub open spec fn value_of(pairs: Seq<Seq<char>>, key: Seq<char>, i: int) -> Option<Seq<char>>
    decreases pairs.len() - i,
{
    if i >= pairs.len() {
        None
    } else {
        match key_value(pairs[i]) {
            Some((k, v)) => if k == key {
                Some(v)
            } else {
                value_of(pairs, key, i + 1)
            },
            None => value_of(pairs, key, i + 1),
        }
    }
}

/// The value of `key` in launch arguments.
pub open spec fn arg_in(args: Seq<char>, key: Seq<char>) -> Option<Seq<char>> {
    value_of(text::lines(args), key, 0)
}

/// The slot that launch arguments name for a capability.
pub open spec fn granted_in(args: Seq<char>, name: Seq<char>) -> Option<Cap> {
    match arg_in(args, "caps"@) {
        None => None,
        Some(caps) => match value_of(text::split(caps, ','), name, 0) {
            None => None,
            Some(slot) => match text::number(slot, u32::MAX as int) {
                None => None,
                Some(n) => Some(Cap(n as u32)),
            },
        },
    }
}

fn find_value<'a>(pairs: &Vec<&'a [char]>, key: &[char]) -> (r: Option<&'a [char]>)
    ensures
        r is Some <==> value_of(text::views(pairs@), key@, 0) is Some,
        r matches Some(v) ==> value_of(text::views(pairs@), key@, 0) == Some(v@),
{
    let mut i: usize = 0;
    while i < pairs.len()
        invariant
            i <= pairs@.len(),
            value_of(text::views(pairs@), key@, 0) == value_of(text::views(pairs@), key@, i as int),
        decreases pairs@.len() - i,
    {
        let line: &'a [char] = pairs[i];
        assert(text::views(pairs@)[i as int] == line@);
        let e: usize = text::find_char(line, '=');
        if e < line.len() {
            let k: &[char] = text::trimmed(slice_subrange(line, 0, e));
            let v: &'a [char] = text::trimmed(slice_subrange(line, e + 1, line.len()));
            if text::same(k, key) {
                return Some(v);
            }
        }
        i = i + 1;
    }
    None
}

/// One `key=value` pair from the launch arguments.
pub fn arg(page: &[u8], key: &str) -> (r: Option<String>)
    requires
        page@.len() >= INFO_SIZE + MAX_ARGS,
    ensures
        r is Some <==> arg_in(args_text(page@), key@) is Some,
        r matches Some(v) ==> arg_in(args_text(page@), key@) == Some(v@),
{
    let all: Vec<char> = text::chars_of(args(page));
    let pairs: Vec<&[char]> = text::lines_of(all.as_slice());
    let k: Vec<char> = text::chars_of(key);
    match find_value(&pairs, k.as_slice()) {
        None => None,
        Some(v) => Some(text::string_of(v)),
    }
}

/// The capability slot the manifest granted under `name`, if any. A service
/// spawned from disk finds its file-server endpoint with `granted(page, "fs")`
/// instead of assuming a slot number.
pub fn granted(page: &[u8], name: &str) -> (r: Option<Cap>)
    requires
        page@.len() >= INFO_SIZE + MAX_ARGS,
    ensures
        r == granted_in(args_text(page@), name@),
{
    let all: Vec<char> = text::chars_of(args(page));
    let pairs: Vec<&[char]> = text::lines_of(all.as_slice());
    let k: Vec<char> = text::chars_of("caps");
    let caps: &[char] = match find_value(&pairs, k.as_slice()) {
        None => {
            return None;
        },
        Some(v) => v,
    };
    let items: Vec<&[char]> = text::split_at(caps, ',');
    let n: Vec<char> = text::chars_of(name);
    match find_value(&items, n.as_slice()) {
        None => None,
        Some(slot) => match text::parse_number(slot, u32::MAX as u64) {
            None => None,
            Some(v) => Some(Cap(v as u32)),
        },
    }
}

/// A line is cut at its first `=`; white space around the key and the value does
/// not count.
pub proof fn lemma_key_value(key: Seq<char>, value: Seq<char>)
    requires
        !key.contains('='),
    ensures
        key_value(key + seq!['='] + value) == Some((text::trim(key), text::trim(value))),
        key_value(key) is None,
{
    let n = key.len() as int;
    let line = key + seq!['='] + value;
    assert forall|k: int| 0 <= k < n implies #[trigger] key[k] != '=' by {
        assert(key.contains(key[k]));
    }
    assert forall|k: int| 0 <= k < n implies #[trigger] line[k] != '=' by {
        assert(line[k] == key[k]);
    }
    text::lemma_index_is(line, '=', 0, n);
    assert(line.subrange(0, n) =~= key);
    assert(line.subrange(n + 1, line.len() as int) =~= value);
    text::lemma_index_is(key, '=', 0, n);
}

/// Of several values for a key the first one counts; a key without one has none.
pub proof fn lemma_first_value(pairs: Seq<Seq<char>>, key: Seq<char>, i: int, j: int)
    requires
        0 <= i <= j <= pairs.len(),
        forall|k: int|
            i <= k < j ==> (key_value(#[trigger] pairs[k]) matches Some(kv) ==> kv.0 != key),
    ensures
        j == pairs.len() ==> value_of(pairs, key, i) is None,
        j < pairs.len() ==> (key_value(pairs[j]) matches Some(kv) ==> kv.0 == key ==> value_of(pairs, key, i)
            == Some(kv.1)),
    decreases j - i,
{
    if i < j {
        assert(key_value(pairs[i]) matches Some(kv) ==> kv.0 != key);
        lemma_first_value(pairs, key, i + 1, j);
    }
}

/// The arguments end before the NULs that fill the page.
pub proof fn lemma_no_nul_at_end(s: Seq<char>, n: int)
    requires
        0 <= n <= s.len(),
    ensures
        0 <= nul_end(s, n) <= n,
        nul_end(s, n) > 0 ==> s[nul_end(s, n) - 1] != '\0',
        forall|k: int| nul_end(s, n) <= k < n ==> #[trigger] s[k] == '\0',
    decreases n,
{
    if n > 0 && s[n - 1] == '\0' {
        lemma_no_nul_at_end(s, n - 1);
    }
}

} // verus!
