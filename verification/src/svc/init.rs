//! `fs` as init: what it reads off the volume at boot and what it starts.
use vstd::prelude::*;
use vstd::string::*;

use crate::align;
use crate::kernel::builtin;
use crate::kernel::builtin::Wiring;
use crate::kernel::obj;
use crate::kernel::obj::{Capability, Object, Rights};
use crate::rt::abi::{Cap, RIGHT_GRANT, RIGHT_SEND, RIGHT_SPAWN};
use crate::rt::calls::Grant;
use crate::svc::fat;
use crate::svc::fat::{BlockDevice, DirEntry, Entry, Fat};
use crate::svc::manifest;
use crate::svc::paths;
use crate::svc::serve;
use crate::svc::serve::{Found, Located};
use crate::text;

verus! {

/// Capability slots `fs` starts with: the block driver's request endpoint, the
/// authority to start services, the half of the file-service channel `fs`
/// receives on, and the half it hands to clients so they can send requests.
pub const BLK: u32 = 0;

pub const CONTROL: u32 = 1;

/// Requests arrive here.
pub const SERVE: u32 = 2;

/// Handed out to services the manifest grants `fs` to; they send on it.
pub const CALL: u32 = 3;

/// Manifest to read, relative to the volume root.
pub const MANIFEST: &'static str = "/SVC/MANIFEST.TXT";

/// The most services a manifest may start.
pub const MAX_SERVICES: usize = 24;

/// Largest manifest that is read, in bytes.
pub const MAX_MANIFEST: u32 = 16 * 1024;

/// Largest README that is shown, in bytes.
pub const MAX_README: u32 = 128;

/// The first `n` bytes of the file whose chain starts at `c`.
pub open spec fn file_bytes(fs: &Fat, disk: spec_fn(int) -> u8, c: u32, n: int) -> Seq<u8> {
    Seq::new(n as nat, |k: int| fs.file_byte(disk, c, k))
}

/// The manifest on a volume, or why there is none. One that is no text counts as
/// empty.
pub open spec fn manifest_on(fs: &Fat, disk: spec_fn(int) -> u8) -> Result<Seq<char>, Seq<char>> {
    match serve::found(fs, disk, MANIFEST.spec_bytes()) {
        Found::NoParent => Err("no /SVC directory on the disk"@),
        Found::Unreadable => Err("cannot read the manifest"@),
        Found::Missing => Err("no MANIFEST.TXT in /SVC"@),
        Found::Item(e) => {
            let (n, ok) = fs.file_span(disk, e.cluster, e.size as int);
            if e.attr & 0x10 != 0 {
                Err("no MANIFEST.TXT in /SVC"@)
            } else if e.size == 0 || e.size > MAX_MANIFEST {
                Err("manifest is empty or too large"@)
            } else if !ok {
                Err("cannot read the manifest"@)
            } else {
                match text::text_in(file_bytes(fs, disk, e.cluster, n)) {
                    Some(t) => Ok(t),
                    None => Ok(Seq::empty()),
                }
            }
        },
    }
}

/// Load the manifest.
pub fn read_manifest<D: BlockDevice>(fs: &mut Fat, dev: &mut D, scratch: &mut [u8]) -> (r: Result<
    String,
    &'static str,
>)
    requires
        old(fs).wf(old(dev).disk()),
        old(scratch)@.len() >= old(fs).cluster_len(),
    ensures
        serve::kept(old(fs), old(dev), old(scratch)@, final(fs), final(dev), final(scratch)@),
        final(dev).faults() == old(dev).faults() ==> match manifest_on(old(fs), old(dev).disk()) {
            Ok(t) => r matches Ok(s) && s@ == t,
            Err(why) => r matches Err(s) && s@ == why,
        },
        final(dev).faults() != old(dev).faults() ==> r is Err,
{
    let ghost f0 = *fs;
    let entry: DirEntry = match serve::locate(fs, dev, scratch, MANIFEST) {
        Located::NoParent => {
            return Err("no /SVC directory on the disk");
        },
        Located::Unreadable => {
            return Err("cannot read the manifest");
        },
        Located::Missing => {
            return Err("no MANIFEST.TXT in /SVC");
        },
        Located::Item(e) => e,
    };
    if entry.is_dir() {
        return Err("no MANIFEST.TXT in /SVC");
    }
    if entry.size == 0 || entry.size > MAX_MANIFEST {
        return Err("manifest is empty or too large");
    }
    let mut bytes: Vec<u8> = zeros(entry.size as usize);
    proof {
        fat::lemma_same_span(fs, &f0, dev.disk(), entry.cluster, entry.size as int);
        assert forall|k: int| fs.file_byte(dev.disk(), entry.cluster, k) == f0.file_byte(
            dev.disk(),
            entry.cluster,
            k,
        ) by {
            fat::lemma_same_byte(fs, &f0, dev.disk(), entry.cluster, k);
        }
    }
    let ghost disk = dev.disk();
    let ghost n = f0.file_span(disk, entry.cluster, entry.size as int).0;
    match fs.read_file(dev, &entry, scratch, bytes.as_mut_slice()) {
        Err(_) => Err("cannot read the manifest"),
        Ok(got) => {
            proof {
                fat::lemma_span_bound(&f0, disk, entry.cluster, entry.size as int);
            }
            let read: &[u8] = vstd::slice::slice_subrange(bytes.as_slice(), 0, got);
            assert(read@ =~= file_bytes(&f0, disk, entry.cluster, n));
            match text::text_of(read) {
                Some(s) => Ok(s.to_owned()),
                None => {
                    let s: String = String::new();
                    Ok(s)
                },
            }
        },
    }
}

/// A buffer of zeros.
fn zeros(n: usize) -> (r: Vec<u8>)
    ensures
        r@.len() == n,
        forall|i: int| 0 <= i < n ==> #[trigger] r@[i] == 0,
{
    let mut v: Vec<u8> = Vec::new();
    let mut i: usize = 0;
    while i < n
        invariant
            i <= n,
            v@.len() == i,
            forall|k: int| 0 <= k < i ==> #[trigger] v@[k] == 0,
        decreases n - i,
    {
        v.push(0);
        i = i + 1;
    }
    v
}

/// Capability names a manifest may use, and what they mean: `fs` only hands out
/// authority it holds itself.
pub open spec fn grant_named(name: Seq<char>) -> Option<Grant> {
    if name == "fs"@ {
        Some(Grant { cap: Cap(CALL), rights: RIGHT_SEND })
    } else if name == "control"@ {
        Some(Grant { cap: Cap(CONTROL), rights: u32::MAX })
    } else {
        None
    }
}

pub fn named_grant(name: &str) -> (r: Option<Grant>)
    ensures
        r == grant_named(name@),
{
    let n: Vec<char> = text::chars_of(name);
    let fs: Vec<char> = text::chars_of("fs");
    let control: Vec<char> = text::chars_of("control");
    if text::same(n.as_slice(), fs.as_slice()) {
        // Talk to the file service: send requests on the calling half.
        Some(Grant::with(Cap(CALL), RIGHT_SEND))
    } else if text::same(n.as_slice(), control.as_slice()) {
        // Start further services.
        Some(Grant::full(Cap(CONTROL)))
    } else {
        None
    }
}

/// What a boot service starts with, as a capability table.
pub open spec fn boot_table(w: Wiring, kbd_irq: u32, nvme: Option<u32>, i: int) -> Seq<Option<Capability>> {
    let g = builtin::boot_grants(w, kbd_irq, nvme, i);
    Seq::new(g.len(), |k: int| Some(g[k]))
}

/// Every name a manifest may use stands for a capability that `fs` was started
/// with and may hand on: `fs` gives a service the right to send requests to it
/// and nothing else, `control` the authority to start services.
pub proof fn lemma_names_held(name: Seq<char>, w: Wiring, kbd_irq: u32, nvme: Option<u32>)
    requires
        grant_named(name) is Some,
    ensures
        ({
            let g = grant_named(name)->0;
            let given = obj::derived(boot_table(w, kbd_irq, nvme, 2), g.cap.0, Rights(g.rights));
            &&& name == "fs"@ ==> given == Some(
                Capability { object: Object::Endpoint(w.fs_call), rights: Rights(RIGHT_SEND) },
            )
            &&& name == "control"@ ==> given == Some(
                Capability { object: Object::Control, rights: Rights(RIGHT_SPAWN | RIGHT_GRANT) },
            )
            &&& name == "fs"@ || name == "control"@
        }),
{
    assert((1u32 | 4) & 4 == 4 && (1u32 | 4) & 1 == 1 && (64u32 | 4) & 4 == 4 && (64u32 | 4) & 0xFFFF_FFFF
        == 64u32 | 4) by (bit_vector);
    reveal_strlit("fs");
    reveal_strlit("control");
    assert("fs"@.len() != "control"@.len());
    let t = boot_table(w, kbd_irq, nvme, 2);
    assert(t[1] == Some(builtin::cap(Object::Control, RIGHT_SPAWN | RIGHT_GRANT)));
    assert(t[3] == Some(builtin::cap(Object::Endpoint(w.fs_call), RIGHT_SEND | RIGHT_GRANT)));
}

/// Where the image of a service is: a relative name lives under /SVC.
pub open spec fn image_path(image: Seq<char>) -> Seq<char> {
    if image.len() > 0 && image[0] == '/' {
        image
    } else {
        "/SVC/"@ + image
    }
}

/// Why a service cannot be started.
#[derive(Clone, Copy, Debug, PartialEq, Eq, Structural)]
pub enum Problem {
    NoDirectory,
    UnreadableDirectory,
    NoFile,
    NotAnImage,
    /// The capability with this number in the list has no known name.
    UnknownCap(usize),
}

/// A problem in words.
pub open spec fn why_text(p: Problem, e: manifest::Entry) -> Seq<char> {
    let path = image_path(e.image@);
    match p {
        Problem::NoDirectory => path + ": no such directory"@,
        Problem::UnreadableDirectory => path + ": cannot read directory"@,
        Problem::NoFile => path + ": no such file"@,
        Problem::NotAnImage => path + ": not an ELF image"@,
        Problem::UnknownCap(i) => "unknown capability '"@ + e.caps@[i as int]@ + "'"@,
    }
}

impl Problem {
    /// What is reported about a manifest entry that cannot be started.
    pub fn why(self, e: &manifest::Entry) -> (r: String)
        requires
            self matches Problem::UnknownCap(i) ==> i < e.caps@.len(),
        ensures
            r@ == why_text(self, *e),
    {
        let mut s: String = full_path(e.image.as_str());
        match self {
            Problem::NoDirectory => s.append(": no such directory"),
            Problem::UnreadableDirectory => s.append(": cannot read directory"),
            Problem::NoFile => s.append(": no such file"),
            Problem::NotAnImage => s.append(": not an ELF image"),
            Problem::UnknownCap(i) => {
                s = "unknown capability '".to_owned();
                s.append(e.caps[i].as_str());
                s.append("'");
            },
        }
        s
    }
}

/// How many of the services a manifest lists are started, and whether some are
/// left out.
pub fn started_of(listed: usize) -> (r: (usize, bool))
    ensures
        r.0 == if listed > MAX_SERVICES {
            MAX_SERVICES
        } else {
            listed
        },
        r.1 == (listed > MAX_SERVICES),
{
    if listed > MAX_SERVICES {
        (MAX_SERVICES, true)
    } else {
        (listed, false)
    }
}

/// A service that can be started.
pub struct Ready {
    /// Path of its image.
    pub image: String,
    pub meta: DirEntry,
    /// Pages its image takes.
    pub pages: u64,
    pub grants: Vec<Grant>,
    pub args: String,
}

/// The number of the first name from `i` on that stands for no grant, or the
/// length.
pub open spec fn unknown(names: Seq<Seq<char>>, i: int) -> int
    decreases names.len() - i,
{
    if i >= names.len() {
        names.len() as int
    } else if grant_named(names[i]) is None {
        i
    } else {
        unknown(names, i + 1)
    }
}

/// The grants that names stand for.
pub open spec fn grants_of(names: Seq<Seq<char>>) -> Seq<Grant> {
    Seq::new(names.len(), |i: int| grant_named(names[i])->0)
}

/// What starting a manifest entry comes to.
pub open spec fn prepared(
    fs: &Fat,
    disk: spec_fn(int) -> u8,
    e: manifest::Entry,
    r: Result<Ready, Problem>,
) -> bool {
    let path = image_path(e.image@);
    let caps = manifest::texts(e.caps@);
    match serve::found(fs, disk, vstd::utf8::encode_utf8(path)) {
        Found::NoParent => r matches Err(p) && p == Problem::NoDirectory,
        Found::Unreadable => r matches Err(p) && p == Problem::UnreadableDirectory,
        Found::Missing => r matches Err(p) && p == Problem::NoFile,
        Found::Item(m) => if m.attr & 0x10 != 0 || m.size == 0 {
            r matches Err(p) && p == Problem::NotAnImage
        } else if unknown(caps, 0) < caps.len() {
            r matches Err(p) && p == Problem::UnknownCap(unknown(caps, 0) as usize)
        } else {
            &&& r matches Ok(q)
            &&& q.image@ == path
            &&& q.meta@ == m
            &&& q.pages == (m.size + 4095) / 4096
            &&& q.grants@ == grants_of(caps)
            &&& q.args@ == manifest::launch_text(e.name@, caps)
        },
    }
}

/// Everything needed to start one service from the manifest: where its image is,
/// its capabilities, and the launch arguments that tell it where the
/// capabilities ended up.
pub fn prepare<D: BlockDevice>(fs: &mut Fat, dev: &mut D, scratch: &mut [u8], e: &manifest::Entry) -> (r: Result<
    Ready,
    Problem,
>)
    requires
        old(fs).wf(old(dev).disk()),
        old(scratch)@.len() >= old(fs).cluster_len(),
    ensures
        serve::kept(old(fs), old(dev), old(scratch)@, final(fs), final(dev), final(scratch)@),
        final(dev).faults() == old(dev).faults() ==> prepared(old(fs), old(dev).disk(), *e, r),
        final(dev).faults() != old(dev).faults() ==> r is Err,
{
    let image: String = full_path(e.image.as_str());
    let meta: DirEntry = match serve::locate(fs, dev, scratch, image.as_str()) {
        Located::NoParent => {
            return Err(Problem::NoDirectory);
        },
        Located::Unreadable => {
            return Err(Problem::UnreadableDirectory);
        },
        Located::Missing => {
            return Err(Problem::NoFile);
        },
        Located::Item(m) => m,
    };
    if meta.is_dir() || meta.size == 0 {
        return Err(Problem::NotAnImage);
    }
    let ghost caps = manifest::texts(e.caps@);
    let mut grants: Vec<Grant> = Vec::new();
    let mut names: Vec<(String, u32)> = Vec::new();
    let n: usize = e.caps.len();
    let mut i: usize = 0;
    let mut bad: bool = false;
    while i < n && !bad
        invariant
            i <= n == caps.len(),
            n == e.caps@.len(),
            caps == manifest::texts(e.caps@),
            unknown(caps, 0) == unknown(caps, i as int),
            bad ==> i < n && unknown(caps, 0) == i,
            !bad ==> manifest::names_of(names@) == caps.take(i as int),
            !bad ==> grants@ == grants_of(caps).take(i as int),
        decreases n - i + (if bad {
            0int
        } else {
            1int
        }),
    {
        assert(caps[i as int] == e.caps@[i as int]@);
        match named_grant(e.caps[i].as_str()) {
            None => {
                bad = true;
            },
            Some(g) => {
                let ghost n0 = names@;
                let name: String = e.caps[i].clone();
                names.push((name, i as u32));
                grants.push(g);
                i = i + 1;
                assert(names@.last().0@ == caps[i - 1]);
                assert(manifest::names_of(names@) =~= manifest::names_of(n0).push(caps[i - 1]));
                assert(caps.take(i as int) =~= caps.take(i - 1).push(caps[i - 1]));
                assert(grants@ =~= grants_of(caps).take(i as int));
            },
        }
    }
    if bad {
        return Err(Problem::UnknownCap(i));
    }
    assert(caps.take(i as int) =~= caps);
    assert(grants_of(caps).take(i as int) =~= grants_of(caps));
    let args: String = launch_args(e.name.as_str(), &names);
    let pages: u64 = align::div_ceil(meta.size as u64, 4096);
    Ok(Ready { image, meta, pages, grants, args })
}

fn full_path(image: &str) -> (r: String)
    ensures
        r@ == image_path(image@),
{
    if image.unicode_len() > 0 && image.get_char(0) == '/' {
        image.to_owned()
    } else {
        let mut s: String = "/SVC/".to_owned();
        s.append(image);
        s
    }
}

/// The launch arguments of a service: its name, and where its capabilities ended
/// up.
pub fn launch_args(name: &str, granted: &Vec<(String, u32)>) -> (r: String)
    ensures
        r@ == manifest::launch_text(name@, manifest::names_of(granted@)),
{
    let mut s: String = "name=".to_owned();
    s.append(name);
    s.append("\n");
    let caps: String = manifest::caps_arg(granted.as_slice());
    s.append(caps.as_str());
    s
}

/// The README in the root of a volume, as it is shown: only a small file, and
/// without the white space at its end.
pub open spec fn readme_on(fs: &Fat, disk: spec_fn(int) -> u8) -> Option<Seq<char>> {
    match paths::entry_in(fs, disk, 0, "README.TXT".spec_bytes()) {
        Ok(Some(e)) => {
            let (n, ok) = fs.file_span(disk, e.cluster, e.size as int);
            if e.attr & 0x10 != 0 || e.size == 0 || e.size > MAX_README || !ok {
                None
            } else {
                let shown = Seq::new(
                    e.size as nat,
                    |k: int|
                        if k < n {
                            fs.file_byte(disk, e.cluster, k)
                        } else {
                            0
                        },
                );
                match text::text_in(shown) {
                    Some(t) => Some(text::trim_end(t)),
                    None => Some("<binary>"@),
                }
            }
        },
        _ => None,
    }
}

/// Read the volume's README, if it has one that can be shown.
pub fn readme<D: BlockDevice>(fs: &mut Fat, dev: &mut D, scratch: &mut [u8]) -> (r: Option<String>)
    requires
        old(fs).wf(old(dev).disk()),
        old(scratch)@.len() >= old(fs).cluster_len(),
    ensures
        serve::kept(old(fs), old(dev), old(scratch)@, final(fs), final(dev), final(scratch)@),
        final(dev).faults() == old(dev).faults() ==> match readme_on(old(fs), old(dev).disk()) {
            Some(t) => r matches Some(s) && s@ == t,
            None => r is None,
        },
        final(dev).faults() != old(dev).faults() ==> r is None,
{
    let ghost f0 = *fs;
    let ghost disk = dev.disk();
    let entry: DirEntry = match fs.lookup(dev, 0, "README.TXT".as_bytes(), scratch) {
        Ok(Some(e)) => e,
        _ => {
            return None;
        },
    };
    if entry.is_dir() || entry.size == 0 || entry.size > MAX_README {
        return None;
    }
    proof {
        fat::lemma_same_span(fs, &f0, disk, entry.cluster, entry.size as int);
        fat::lemma_span_bound(&f0, disk, entry.cluster, entry.size as int);
        assert forall|k: int| fs.file_byte(disk, entry.cluster, k) == f0.file_byte(
            disk,
            entry.cluster,
            k,
        ) by {
            fat::lemma_same_byte(fs, &f0, disk, entry.cluster, k);
        }
    }
    let ghost n = f0.file_span(disk, entry.cluster, entry.size as int).0;
    let mut bytes: Vec<u8> = zeros(entry.size as usize);
    match fs.read_file(dev, &entry, scratch, bytes.as_mut_slice()) {
        Err(_) => None,
        Ok(_) => {
            let ghost shown = Seq::new(
                entry.size as nat,
                |k: int|
                    if k < n {
                        f0.file_byte(disk, entry.cluster, k)
                    } else {
                        0
                    },
            );
            assert(bytes@ =~= shown);
            match text::text_of(bytes.as_slice()) {
                Some(s) => {
                    let cs: Vec<char> = text::chars_of(s);
                    Some(text::string_of(text::trimmed_end(cs.as_slice())))
                },
                None => Some("<binary>".to_owned()),
            }
        },
    }
}

/// An image is looked for where its path says, and under /SVC if that is relative.
pub proof fn lemma_image_path(image: Seq<char>, i: int)
    ensures
        image.len() > 0 && image[0] == '/' ==> image_path(image) == image,
        image.len() == 0 || image[0] != '/' ==> {
            let p = image_path(image);
            &&& p.len() == image.len() + 5
            &&& p[0] == '/' && p[1] == 'S' && p[2] == 'V' && p[3] == 'C' && p[4] == '/'
            &&& 0 <= i < image.len() ==> p[5 + i] == image[i]
        },
{
    reveal_strlit("/SVC/");
}

/// A service can be started if its image is there, is a file and not empty, and
/// every capability it asks for has a known name. It then gets as many pages as
/// hold its image and no more, and what its names stand for, in the order of the
/// manifest.
pub proof fn lemma_prepared(fs: &Fat, disk: spec_fn(int) -> u8, e: manifest::Entry, r: Result<Ready, Problem>, i: int)
    requires
        prepared(fs, disk, e, r),
    ensures
        ({
            let what = serve::found(fs, disk, vstd::utf8::encode_utf8(image_path(e.image@)));
            &&& r is Ok ==> what is Item
            &&& what matches Found::Item(m) ==> {
                &&& m.attr & 0x10 != 0 || m.size == 0 ==> r is Err && r->Err_0 == Problem::NotAnImage
                &&& r is Ok ==> {
                    let q = r->Ok_0;
                    &&& q.pages * 4096 >= m.size
                    &&& (q.pages - 1) * 4096 < m.size
                    &&& q.meta.cluster == m.cluster
                    &&& q.meta.size == m.size
                    &&& q.grants@.len() == e.caps@.len()
                    &&& 0 <= i < e.caps@.len() ==> grant_named(e.caps@[i]@) == Some(q.grants@[i])
                }
                &&& m.attr & 0x10 == 0 && m.size > 0 && (forall|k: int|
                    0 <= k < e.caps@.len() ==> grant_named((#[trigger] e.caps@[k])@) is Some) ==> r is Ok
                &&& m.attr & 0x10 == 0 && m.size > 0 && 0 <= i < e.caps@.len() && grant_named(e.caps@[i]@) is None && (
                forall|k: int| 0 <= k < i ==> grant_named((#[trigger] e.caps@[k])@) is Some) ==> r is Err
                    && r->Err_0 == Problem::UnknownCap(i as usize)
            }
        }),
{
    let caps = manifest::texts(e.caps@);
    lemma_unknown(caps, 0);
    if unknown(caps, 0) < caps.len() {
        assert(e.caps@[unknown(caps, 0)]@ == caps[unknown(caps, 0)]);
    }
    if 0 <= i < caps.len() {
        assert(caps[i] == e.caps@[i]@);
    }
}

proof fn lemma_unknown(names: Seq<Seq<char>>, i: int)
    requires
        0 <= i <= names.len(),
    ensures
        i <= unknown(names, i) <= names.len(),
        unknown(names, i) < names.len() ==> grant_named(names[unknown(names, i)]) is None,
        forall|k: int| i <= k < unknown(names, i) ==> grant_named(#[trigger] names[k]) is Some,
    decreases names.len() - i,
{
    if i < names.len() && grant_named(names[i]) is Some {
        lemma_unknown(names, i + 1);
    }
}

/// A manifest is read if it is a file of up to 16 KiB that is there from its first
/// byte to its last; what is read is what the file holds.
pub proof fn lemma_manifest_read(fs: &Fat, disk: spec_fn(int) -> u8, k: int)
    ensures
        ({
            let what = serve::found(fs, disk, MANIFEST.spec_bytes());
            &&& manifest_on(fs, disk) is Ok ==> what is Item
            &&& what matches Found::Item(e) ==> {
                let (n, ok) = fs.file_span(disk, e.cluster, e.size as int);
                let held = Seq::new(n as nat, |k: int| fs.file_byte(disk, e.cluster, k));
                &&& manifest_on(fs, disk) is Ok <==> e.attr & 0x10 == 0 && 1 <= e.size <= 16384 && ok
                &&& manifest_on(fs, disk) is Ok && vstd::utf8::valid_utf8(held) ==> manifest_on(fs, disk) == Ok::<
                    Seq<char>,
                    Seq<char>,
                >(vstd::utf8::decode_utf8(held))
            }
        }),
{
    let what = serve::found(fs, disk, MANIFEST.spec_bytes());
    if let Found::Item(e) = what {
        let (n, ok) = fs.file_span(disk, e.cluster, e.size as int);
        let held = Seq::new(n as nat, |k: int| fs.file_byte(disk, e.cluster, k));
        assert(held =~= file_bytes(fs, disk, e.cluster, n));
    }
}

/// A service may ask for two things by name. `fs` is the half of the file
/// service's pair that is for calling it, to send on only; `control` is the
/// authority to start services, as the file service has it.
pub proof fn lemma_named(name: Seq<char>, w: builtin::Wiring, kbd_irq: u32, nvme: Option<u32>)
    ensures
        grant_named(name) is Some <==> name == seq!['f', 's'] || name == seq![
            'c',
            'o',
            'n',
            't',
            'r',
            'o',
            'l',
        ],
        grant_named(name) matches Some(g) ==> {
            let c = builtin::boot_grants(w, kbd_irq, nvme, 2)[g.cap.0 as int];
            &&& g.cap.0 < 4
            &&& name.len() == 2 ==> c.object == Object::Endpoint(w.fs_call) && g.rights == 1
            &&& name.len() == 7 ==> c.object is Control && g.rights == 0xFFFF_FFFF
        },
{
    reveal_strlit("fs");
    reveal_strlit("control");
    assert("fs"@ =~= seq!['f', 's']);
    assert("control"@ =~= seq!['c', 'o', 'n', 't', 'r', 'o', 'l']);
}

/// The README is shown if it is a file of one to 128 bytes that can be read: its
/// text without white space at the end, or that it is none.
pub proof fn lemma_readme(fs: &Fat, disk: spec_fn(int) -> u8, e: Entry, b: Seq<u8>)
    requires
        paths::entry_in(fs, disk, 0, "README.TXT".spec_bytes()) == Ok::<Option<Entry>, ()>(Some(e)),
        b.len() == e.size,
        fs.file_span(disk, e.cluster, e.size as int).0 == e.size,
        forall|k: int| 0 <= k < b.len() ==> #[trigger] b[k] == fs.file_byte(disk, e.cluster, k),
    ensures
        readme_on(fs, disk) is Some <==> e.attr & 0x10 == 0 && 1 <= e.size <= 128 && fs.file_span(
            disk,
            e.cluster,
            e.size as int,
        ).1,
        readme_on(fs, disk) is Some && text::text_in(b) is Some ==> readme_on(fs, disk) == Some(
            text::trim_end(text::text_in(b)->0),
        ),
        readme_on(fs, disk) is Some && text::text_in(b) is None ==> readme_on(fs, disk)->0 == "<binary>"@,
{
    let n = fs.file_span(disk, e.cluster, e.size as int).0;
    let shown = Seq::new(
        e.size as nat,
        |k: int|
            if k < n {
                fs.file_byte(disk, e.cluster, k)
            } else {
                0
            },
    );
    assert(shown =~= b);
}

} // verus!
