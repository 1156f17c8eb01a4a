//! Path handling for the file service.
//!
//! Paths are absolute, `/`-separated and case-insensitive (FAT 8.3 names).
//! `.` is skipped, `..` walks back towards the root and never above it, and a
//! component that does not fit 8.3 is rejected rather than truncated: opening
//! the wrong file because a name was shortened would be worse than failing.
use vstd::prelude::*;
use vstd::string::*;

use crate::bytes;
use crate::svc::fat;
use crate::svc::fat::{BlockDevice, DirEntry, Entry, Fat};

verus! {

/// Longest path the service accepts.
pub const MAX_PATH: usize = 255;

/// Deepest directory nesting a path may describe.
pub const MAX_DEPTH: usize = 8;

/// The byte that separates components.
pub const SLASH: u8 = 0x2F;

/// The components of a path from offset `i` on: what stands between slashes,
/// without empty components and single dots.
pub open spec fn comps(path: Seq<u8>, i: int) -> Seq<Seq<u8>>
    decreases path.len() - i,
{
    if i < 0 || i > path.len() {
        Seq::empty()
    } else {
        let j = bytes::find(path, SLASH, i);
        let piece = path.subrange(i, j);
        let rest = if i <= j < path.len() {
            comps(path, j + 1)
        } else {
            Seq::empty()
        };
        if piece.len() == 0 || piece == seq![0x2Eu8] {
            rest
        } else {
            seq![piece] + rest
        }
    }
}

/// Whether a component means the directory above.
pub open spec fn is_up(comp: Seq<u8>) -> bool {
    comp == seq![0x2Eu8, 0x2Eu8]
}

/// The entry called `name` in directory `dir`: the listing cannot be read to
/// its end, or the first entry with that name, if any.
pub open spec fn entry_in(fs: &Fat, disk: spec_fn(int) -> u8, dir: u32, name: Seq<u8>) -> Result<
    Option<Entry>,
    (),
> {
    match fat::short_name(name) {
        None => Ok(None),
        Some(want) => {
            let (all, ok) = fs.listing(disk, dir);
            let at = fat::named(all, want, 0);
            if !ok {
                Err(())
            } else if at < all.len() {
                Ok(Some(all[at]))
            } else {
                Ok(None)
            }
        },
    }
}

/// Where a walk along the components from `i` on ends, starting in the
/// directory on top of `stack` (the root, if it is empty): the directory of
/// the last component and its stored name.
pub open spec fn walk(
    fs: &Fat,
    disk: spec_fn(int) -> u8,
    parts: Seq<Seq<u8>>,
    i: int,
    stack: Seq<u32>,
) -> Option<(u32, Seq<u8>)>
    decreases parts.len() - i,
{
    if i >= parts.len() {
        None
    } else if is_up(parts[i]) {
        walk(
            fs,
            disk,
            parts,
            i + 1,
            if stack.len() == 0 {
                stack
            } else {
                stack.drop_last()
            },
        )
    } else {
        let dir = if stack.len() == 0 {
            0u32
        } else {
            stack.last()
        };
        match fat::short_name(parts[i]) {
            None => None,
            Some(leaf) => if i == parts.len() - 1 {
                Some((dir, leaf))
            } else if stack.len() >= MAX_DEPTH {
                None
            } else {
                match entry_in(fs, disk, dir, parts[i]) {
                    Ok(Some(e)) => if e.attr & 0x10 != 0 {
                        walk(fs, disk, parts, i + 1, stack.push(e.cluster))
                    } else {
                        None
                    },
                    _ => None,
                }
            },
        }
    }
}

/// The directory that holds the last component of a path, and that
/// component's stored name.
pub open spec fn parent_of(fs: &Fat, disk: spec_fn(int) -> u8, path: Seq<u8>) -> Option<(u32, Seq<u8>)> {
    if 1 <= path.len() <= MAX_PATH && path[0] == SLASH {
        walk(fs, disk, comps(path, 0), 0, Seq::empty())
    } else {
        None
    }
}

/// Position right after the last slash before `i`, or 0 without one.
pub open spec fn after_slash(path: Seq<u8>, i: int) -> int
    decreases i,
{
    if i <= 0 {
        0
    } else if path[i - 1] == SLASH {
        i
    } else {
        after_slash(path, i - 1)
    }
}

/// The last component of a path: what follows its last slash.
pub open spec fn leaf(path: Seq<u8>) -> Seq<u8> {
    path.subrange(after_slash(path, path.len() as int), path.len() as int)
}

/// What follows the last slash holds no slash, and stands behind one unless it
/// is the whole path.
pub proof fn lemma_leaf(path: Seq<u8>, i: int)
    requires
        0 <= i <= path.len(),
    ensures
        0 <= after_slash(path, i) <= i,
        after_slash(path, i) > 0 ==> path[after_slash(path, i) - 1] == SLASH,
        forall|k: int| after_slash(path, i) <= k < i ==> #[trigger] path[k] != SLASH,
    decreases i,
{
    if i > 0 && path[i - 1] != SLASH {
        lemma_leaf(path, i - 1);
    }
}

/// The last component of a path.
pub fn leaf_name(path: &str) -> (r: &[u8])
    ensures
        r@ == leaf(path.spec_bytes()),
{
    let b: &[u8] = path.as_bytes();
    assert(b.len() == b@.len());
    let mut i: usize = b.len();
    while i > 0 && b[i - 1] != SLASH
        invariant
            i <= b@.len() == b.len(),
            after_slash(b@, b@.len() as int) == after_slash(b@, i as int),
        decreases i,
    {
        i = i - 1;
    }
    vstd::slice::slice_subrange(b, i, b.len())
}

/// `..` never walks above the root.
pub proof fn lemma_up_at_root(fs: &Fat, disk: spec_fn(int) -> u8, parts: Seq<Seq<u8>>, i: int)
    requires
        0 <= i < parts.len(),
        is_up(parts[i]),
    ensures
        walk(fs, disk, parts, i, Seq::empty()) == walk(fs, disk, parts, i + 1, Seq::empty()),
{
}

/// Whether a byte slice is the text "..".
fn means_up(c: &[u8]) -> (r: bool)
    ensures
        r == is_up(c@),
{
    assert(c.len() == c@.len());
    let r: bool = c.len() == 2 && c[0] == 0x2E && c[1] == 0x2E;
    proof {
        if r {
            assert(c@ =~= seq![0x2Eu8, 0x2Eu8]);
        }
    }
    r
}

/// The components of a path.
pub fn components(path: &[u8]) -> (r: Vec<Vec<u8>>)
    ensures
        r@.len() == comps(path@, 0).len(),
        forall|i: int| 0 <= i < r@.len() ==> (#[trigger] r@[i])@ == comps(path@, 0)[i],
{
    let mut out: Vec<Vec<u8>> = Vec::new();
    let ghost all = comps(path@, 0);
    assert(path.len() == path@.len());
    let mut i: usize = 0;
    let mut more: bool = true;
    while more
        invariant
            path@.len() == path.len(),
            all == comps(path@, 0),
            more ==> i <= path@.len(),
            out@.len() + (if more {
                comps(path@, i as int).len()
            } else {
                0
            }) == all.len(),
            forall|k: int| 0 <= k < out@.len() ==> (#[trigger] out@[k])@ == all[k],
            more ==> forall|k: int|
                0 <= k < comps(path@, i as int).len() ==> #[trigger] comps(path@, i as int)[k]
                    == all[out@.len() + k],
        decreases (if more { path@.len() - i + 1 } else { 0 }),
    {
        let ghost here = comps(path@, i as int);
        let j: usize = bytes::find_byte(path, SLASH, i);
        let ghost rest = if j < path@.len() {
            comps(path@, j + 1)
        } else {
            Seq::empty()
        };
        let piece: &[u8] = vstd::slice::slice_subrange(path, i, j);
        let skip: bool = piece.len() == 0 || (piece.len() == 1 && piece[0] == 0x2E);
        assert(piece@.len() == piece.len());
        assert(skip == (piece@.len() == 0 || piece@ == seq![0x2Eu8])) by {
            if skip && piece@.len() != 0 {
                assert(piece@ =~= seq![0x2Eu8]);
            }
        }
        assert(here == if skip {
            rest
        } else {
            seq![piece@] + rest
        });
        if !skip {
            let ghost n = out@.len() as int;
            out.push(vstd::slice::slice_to_vec(piece));
            proof {
                assert(here[0] == all[n + 0]);
                assert forall|k: int| 0 <= k < rest.len() implies #[trigger] rest[k] == all[n + 1 + k] by {
                    assert(here[k + 1] == all[n + (k + 1)]);
                }
            }
        }
        if j < path.len() {
            i = j + 1;
        } else {
            more = false;
        }
    }
    out
}

/// Resolve everything but the last component: returns the directory that holds
/// it (0 = the FAT root) and the 8.3 form of the last component.
pub fn split_parent<D: BlockDevice>(fs: &mut Fat, dev: &mut D, path: &str, scratch: &mut [u8]) -> (r: Result<
    (u32, [u8; 11]),
    (),
>)
    requires
        old(fs).wf(old(dev).disk()),
        old(scratch)@.len() >= old(fs).cluster_len(),
    ensures
        final(fs).wf(old(dev).disk()),
        final(fs).same_volume(old(fs)),
        final(dev).disk() == old(dev).disk(),
        final(scratch)@.len() == old(scratch)@.len(),
        final(dev).faults() != old(dev).faults() ==> r is Err,
        final(dev).faults() == old(dev).faults() ==> {
            let p = parent_of(old(fs), old(dev).disk(), path.spec_bytes());
            &&& r is Ok <==> p is Some
            &&& r matches Ok(v) ==> v.0 == (p->0).0 && v.1@ == (p->0).1
        },
{
    let b: &[u8] = path.as_bytes();
    assert(b.len() == b@.len());
    if b.len() == 0 || b.len() > MAX_PATH || b[0] != SLASH {
        return Err(());
    }
    let ghost disk = dev.disk();
    let ghost f0 = *fs;
    let parts: Vec<Vec<u8>> = components(b);
    let ghost all = comps(b@, 0);
    let ghost want = parent_of(&f0, disk, b@);
    let mut stack: Vec<u32> = Vec::new();
    let mut i: usize = 0;
    while i < parts.len()
        invariant
            i <= parts@.len(),
            all.len() == parts@.len(),
            all == comps(b@, 0),
            b@ == path.spec_bytes(),
            f0 == *old(fs),
            disk == old(dev).disk(),
            forall|k: int| 0 <= k < parts@.len() ==> (#[trigger] parts@[k])@ == all[k],
            fs.wf(disk),
            fs.same_volume(&f0),
            dev.disk() == disk,
            dev.faults() == old(dev).faults(),
            scratch@.len() == old(scratch)@.len(),
            scratch@.len() >= f0.cluster_len(),
            stack@.len() <= MAX_DEPTH,
            want == parent_of(&f0, disk, b@),
            want == walk(&f0, disk, all, i as int, stack@),
        decreases parts@.len() - i,
    {
        let comp: &[u8] = parts[i].as_slice();
        assert(comp@ == all[i as int]);
        if means_up(comp) {
            if stack.len() > 0 {
                stack.pop();
            }
        } else {
            let leaf: [u8; 11] = match fat::stored_name(comp) {
                None => {
                    return Err(());
                },
                Some(l) => l,
            };
            let dir: u32 = if stack.len() == 0 {
                0
            } else {
                stack[stack.len() - 1]
            };
            if i == parts.len() - 1 {
                return Ok((dir, leaf));
            }
            if stack.len() >= MAX_DEPTH {
                return Err(());
            }
            proof {
                fat::lemma_same_listing(fs, &f0, disk, dir);
            }
            let entry: DirEntry = match fs.lookup(dev, dir, comp, scratch) {
                Ok(Some(e)) => e,
                _ => {
                    return Err(());
                },
            };
            if !entry.is_dir() {
                return Err(());
            }
            stack.push(entry.cluster);
        }
        i = i + 1;
    }
    // The path was "/" or a chain of dots: there is no last component.
    Err(())
}

proof fn lemma_comps_shift(a: Seq<u8>, path: Seq<u8>, i: int)
    requires
        0 <= i <= path.len(),
    ensures
        comps(a + path, a.len() + i) == comps(path, i),
    decreases path.len() - i,
{
    let whole = a + path;
    let n = a.len() as int;
    bytes::lemma_find(whole, SLASH, n + i);
    bytes::lemma_find(path, SLASH, i);
    let j = bytes::find(path, SLASH, i);
    let k = bytes::find(whole, SLASH, n + i);
    if j < path.len() {
        assert(whole[n + j] == SLASH);
    }
    if k < whole.len() {
        assert(path[k - n] == SLASH);
    }
    assert(k == n + j);
    assert(whole.subrange(n + i, k) =~= path.subrange(i, j));
    if j < path.len() {
        lemma_comps_shift(a, path, j + 1);
    }
}

/// The components of a path are what stands between its slashes, in order. Slashes
/// in a row count as one, and a single dot for nothing.
pub proof fn lemma_components(piece: Seq<u8>, rest: Seq<u8>)
    requires
        !piece.contains(SLASH),
    ensures
        ({
            let counts = piece.len() > 0 && piece != seq![0x2Eu8];
            let front = if counts {
                seq![piece]
            } else {
                Seq::empty()
            };
            &&& comps(piece + seq![SLASH] + rest, 0) == front + comps(rest, 0)
            &&& comps(piece, 0) == front
        }),
{
    let n = piece.len() as int;
    let path = piece + seq![SLASH] + rest;
    assert forall|k: int| 0 <= k < n implies #[trigger] piece[k] != SLASH by {
        assert(piece.contains(piece[k]));
    }
    bytes::lemma_find(path, SLASH, 0);
    assert(path[n] == SLASH);
    assert forall|k: int| 0 <= k < n implies #[trigger] path[k] != SLASH by {
        assert(path[k] == piece[k]);
    }
    assert(bytes::find(path, SLASH, 0) == n);
    assert(path.subrange(0, n) =~= piece);
    lemma_comps_shift(piece + seq![SLASH], rest, 0);
    bytes::lemma_find(piece, SLASH, 0);
    assert(bytes::find(piece, SLASH, 0) == n);
    assert(piece.subrange(0, n) =~= piece);
    let front = if piece.len() > 0 && piece != seq![0x2Eu8] {
        seq![piece]
    } else {
        Seq::empty()
    };
    assert(comps(piece, 0) =~= front);
    assert(comps(path, 0) =~= front + comps(rest, 0));
}

/// Walking into a directory and back out of it leads nowhere else.
pub proof fn lemma_in_and_out(fs: &Fat, disk: spec_fn(int) -> u8, parts: Seq<Seq<u8>>, i: int, stack: Seq<u32>)
    requires
        0 <= i,
        i + 2 < parts.len(),
        !is_up(parts[i]),
        parts[i + 1] == seq![0x2Eu8, 0x2Eu8],
        stack.len() < 8,
        entry_in(
            fs,
            disk,
            if stack.len() == 0 {
                0
            } else {
                stack.last()
            },
            parts[i],
        ) matches Ok(Some(e)) && e.attr & 0x10 != 0,
    ensures
        walk(fs, disk, parts, i, stack) == walk(fs, disk, parts, i + 2, stack),
{
    let dir = if stack.len() == 0 {
        0
    } else {
        stack.last()
    };
    let e = entry_in(fs, disk, dir, parts[i])->Ok_0->0;
    reveal_with_fuel(walk, 3);
    assert(stack.push(e.cluster).drop_last() =~= stack);
    assert(is_up(parts[i + 1]));
}

/// The last component is not looked up: the walk ends in the directory it has
/// reached, with the name as it is stored. A component before it has to be a
/// directory, and the walk goes on in there, eight levels deep at most.
pub proof fn lemma_walk(fs: &Fat, disk: spec_fn(int) -> u8, parts: Seq<Seq<u8>>, i: int, stack: Seq<u32>)
    requires
        0 <= i < parts.len(),
        parts[i] != seq![0x2Eu8, 0x2Eu8],
    ensures
        ({
            let dir = if stack.len() == 0 {
                0
            } else {
                stack.last()
            };
            match fat::short_name(parts[i]) {
                None => walk(fs, disk, parts, i, stack) is None,
                Some(name) => {
                    &&& i == parts.len() - 1 ==> walk(fs, disk, parts, i, stack) == Some((dir, name))
                    &&& i < parts.len() - 1 ==> match entry_in(fs, disk, dir, parts[i]) {
                        Ok(Some(e)) => {
                            &&& e.attr & 0x10 != 0 && stack.len() < 8 ==> walk(fs, disk, parts, i, stack) == walk(
                                fs,
                                disk,
                                parts,
                                i + 1,
                                stack.push(e.cluster),
                            )
                            &&& e.attr & 0x10 == 0 || stack.len() >= 8 ==> walk(fs, disk, parts, i, stack) is None
                        },
                        _ => walk(fs, disk, parts, i, stack) is None,
                    }
                },
            }
        }),
{
}

/// Only absolute paths of up to 255 bytes lead anywhere.
pub proof fn lemma_absolute_paths(fs: &Fat, disk: spec_fn(int) -> u8, path: Seq<u8>)
    ensures
        path.len() == 0 || path.len() > 255 || path[0] != 0x2F ==> parent_of(fs, disk, path) is None,
        0 < path.len() <= 255 && path[0] == 0x2F ==> parent_of(fs, disk, path) == walk(
            fs,
            disk,
            comps(path, 0),
            0,
            Seq::empty(),
        ),
{
}

/// The last part of a path is what follows its last slash, or all of it if there
/// is none.
pub proof fn lemma_last_part(dir: Seq<u8>, name: Seq<u8>)
    requires
        forall|k: int| 0 <= k < name.len() ==> #[trigger] name[k] != 0x2F,
    ensures
        leaf(name) == name,
        leaf(dir + seq![0x2Fu8] + name) == name,
{
    lemma_last_part_at(dir, name, name.len() as int);
    assert(leaf(name) =~= name);
    assert(leaf(dir + seq![0x2Fu8] + name) =~= name);
}

proof fn lemma_last_part_at(dir: Seq<u8>, name: Seq<u8>, i: int)
    requires
        forall|k: int| 0 <= k < name.len() ==> #[trigger] name[k] != 0x2F,
        0 <= i <= name.len(),
    ensures
        after_slash(name, i) == 0,
        after_slash(dir + seq![0x2Fu8] + name, dir.len() + 1 + i) == dir.len() + 1,
    decreases i,
{
    let path = dir + seq![0x2Fu8] + name;
    if i > 0 {
        lemma_last_part_at(dir, name, i - 1);
        assert(path[dir.len() + i] == name[i - 1]);
    } else {
        assert(path[dir.len() as int] == 0x2F);
    }
}

/// A name is found in a directory at the first entry stored under it, and one that
/// no entry has is not there. Of a directory that cannot be read to its end nothing
/// is known.
pub proof fn lemma_looked_up(fs: &Fat, disk: spec_fn(int) -> u8, dir: u32, name: Seq<u8>, want: Seq<u8>, j: int)
    requires
        fat::short_name(name) == Some(want),
        ({
            let all = fs.listing(disk, dir).0;
            &&& 0 <= j <= all.len()
            &&& forall|k: int| 0 <= k < j ==> (#[trigger] all[k]).name != want
            &&& j < all.len() ==> all[j].name == want
        }),
    ensures
        ({
            let all = fs.listing(disk, dir).0;
            let r = entry_in(fs, disk, dir, name);
            &&& r is Err <==> !fs.listing(disk, dir).1
            &&& r is Ok && j < all.len() ==> r->Ok_0 == Some(all[j])
            &&& r is Ok && j == all.len() ==> r->Ok_0 is None
        }),
{
    fat::lemma_first_named(fs.listing(disk, dir).0, want, 0, j);
}

} // verus!
