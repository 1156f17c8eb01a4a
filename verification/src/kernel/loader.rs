//! Static ELF64 loader for ring-3 services: which parts of an image go where.
use vstd::prelude::*;

use crate::bytes;

verus! {

pub const ET_EXEC: u16 = 2;

pub const EM_X86_64: u16 = 0x3E;

pub const PT_LOAD: u32 = 1;

/// Lowest address a segment may occupy; keeps the null page and the first
/// 4 MiB unmapped so wild pointers fault instead of hitting code.
pub const USER_MIN: u64 = 0x0040_0000;

pub const USER_MAX: u64 = 0x0000_7fff_0000_0000;

#[derive(Clone, Copy, Debug, PartialEq, Eq, Structural)]
pub enum LoadError {
    BadMagic,
    Unsupported,
    Truncated,
    BadSegment,
    OutOfMemory,
}

#[derive(Clone, Copy, Debug, PartialEq, Eq, Structural)]
pub struct LoadedImage {
    pub entry: u64,
}

/// A part of the image to map and copy.
#[derive(Clone, Copy, Debug, PartialEq, Eq, Structural)]
pub struct Segment {
    pub vaddr: u64,
    pub memsz: u64,
    /// Where its bytes are in the image, and how many; the rest is zero.
    pub offset: u64,
    pub filesz: u64,
    pub writable: bool,
    pub executable: bool,
    /// The pages that hold it.
    pub first_page: u64,
    pub pages: u64,
}

/// What an image asks for: the segments to map in order, and how the load ends
/// once they are in place.
pub struct Loaded {
    pub segments: Vec<Segment>,
    pub result: Result<LoadedImage, LoadError>,
}

/// Why an image is refused for its header alone.
pub open spec fn header_error(b: Seq<u8>) -> Option<LoadError> {
    if b.len() < 64 || b[0] != 0x7F || b[1] != 0x45 || b[2] != 0x4C || b[3] != 0x46 {
        Some(LoadError::BadMagic)
    } else if b[4] != 2 || b[5] != 1 {
        Some(LoadError::Unsupported)
    } else if bytes::le_u16(b, 16) != ET_EXEC || bytes::le_u16(b, 18) != EM_X86_64 {
        Some(LoadError::Unsupported)
    } else if bytes::le_u16(b, 54) < 56 {
        Some(LoadError::Unsupported)
    } else {
        None
    }
}

/// The segment a program header describes.
pub open spec fn segment(b: Seq<u8>, ph: int) -> Segment {
    let flags = bytes::le_u32(b, ph + 4);
    let vaddr = bytes::le_u64(b, ph + 16);
    let memsz = bytes::le_u64(b, ph + 40);
    let first = vaddr - vaddr % 4096;
    Segment {
        vaddr,
        memsz,
        offset: bytes::le_u64(b, ph + 8),
        filesz: bytes::le_u64(b, ph + 32),
        writable: flags & 2 != 0,
        executable: flags & 1 != 0,
        first_page: first as u64,
        pages: ((vaddr + memsz - first + 4095) / 4096) as u64,
    }
}

/// What the program header at `ph` asks for: nothing, a segment, or an error.
pub open spec fn header_at(b: Seq<u8>, ph: int) -> Result<Option<Segment>, LoadError> {
    if ph + 4 > b.len() {
        Err(LoadError::Truncated)
    } else if bytes::le_u32(b, ph) != PT_LOAD {
        Ok(None)
    } else if ph + 48 > b.len() {
        Err(LoadError::Truncated)
    } else {
        let s = segment(b, ph);
        if s.memsz == 0 {
            Ok(None)
        } else if s.vaddr < USER_MIN || s.vaddr + s.memsz > USER_MAX || s.filesz > s.memsz {
            Err(LoadError::BadSegment)
        } else if s.offset + s.filesz > u64::MAX {
            Err(LoadError::BadSegment)
        } else if s.offset + s.filesz > b.len() {
            Err(LoadError::Truncated)
        } else {
            Ok(Some(s))
        }
    }
}

/// Where program header `i` is.
pub open spec fn header_off(b: Seq<u8>, i: int) -> int {
    bytes::le_u64(b, 32) + i * bytes::le_u16(b, 54)
}

/// The segments the program headers from `i` on ask for, up to the first that
/// is in error, and that error.
pub open spec fn segments_from(b: Seq<u8>, i: int) -> (Seq<Segment>, Option<LoadError>)
    decreases bytes::le_u16(b, 56) - i,
{
    if i >= bytes::le_u16(b, 56) {
        (Seq::empty(), None)
    } else {
        match header_at(b, header_off(b, i)) {
            Err(e) => (Seq::empty(), Some(e)),
            Ok(None) => segments_from(b, i + 1),
            Ok(Some(s)) => {
                let rest = segments_from(b, i + 1);
                (seq![s] + rest.0, rest.1)
            },
        }
    }
}

/// The segments of an image and how its load ends.
pub open spec fn image_of(b: Seq<u8>) -> (Seq<Segment>, Result<LoadedImage, LoadError>) {
    match header_error(b) {
        Some(e) => (Seq::empty(), Err(e)),
        None => {
            let (segs, err) = segments_from(b, 0);
            let entry = bytes::le_u64(b, 24);
            match err {
                Some(e) => (segs, Err(e)),
                None => if segs.len() == 0 || entry < USER_MIN || entry >= USER_MAX {
                    (segs, Err(LoadError::BadSegment))
                } else {
                    (segs, Ok(LoadedImage { entry }))
                },
            }
        },
    }
}

/// Read the program header at `ph`.
fn read_header(b: &[u8], ph: u64) -> (r: Result<Option<Segment>, LoadError>)
    ensures
        r == header_at(b@, ph as int),
{
    assert(b.len() == b@.len());
    let len: u64 = b.len() as u64;
    if len < 4 || ph > len - 4 {
        return Err(LoadError::Truncated);
    }
    let at: usize = ph as usize;
    if bytes::get_u32(b, at) != PT_LOAD {
        return Ok(None);
    }
    if len < 48 || ph > len - 48 {
        return Err(LoadError::Truncated);
    }
    let flags: u32 = bytes::get_u32(b, at + 4);
    let offset: u64 = bytes::get_u64(b, at + 8);
    let vaddr: u64 = bytes::get_u64(b, at + 16);
    let filesz: u64 = bytes::get_u64(b, at + 32);
    let memsz: u64 = bytes::get_u64(b, at + 40);
    if memsz == 0 {
        return Ok(None);
    }
    let end: u64 = match vaddr.checked_add(memsz) {
        None => {
            return Err(LoadError::BadSegment);
        },
        Some(e) => e,
    };
    if vaddr < USER_MIN || end > USER_MAX || filesz > memsz {
        return Err(LoadError::BadSegment);
    }
    let file_end: u64 = match offset.checked_add(filesz) {
        None => {
            return Err(LoadError::BadSegment);
        },
        Some(e) => e,
    };
    if file_end > len {
        return Err(LoadError::Truncated);
    }
    let first_page: u64 = vaddr - vaddr % 4096;
    Ok(
        Some(
            Segment {
                vaddr,
                memsz,
                offset,
                filesz,
                writable: flags & 2 != 0,
                executable: flags & 1 != 0,
                first_page,
                pages: (end - first_page + 4095) / 4096,
            },
        ),
    )
}

/// Find every loadable segment of an image.
pub fn load(image: &[u8]) -> (r: Loaded)
    ensures
        (r.segments@, r.result) == image_of(image@),
{
    let mut segments: Vec<Segment> = Vec::new();
    assert(image.len() == image@.len());
    assert(segments@ =~= Seq::empty());
    if image.len() < 64 || image[0] != 0x7F || image[1] != 0x45 || image[2] != 0x4C || image[3] != 0x46 {
        return Loaded { segments, result: Err(LoadError::BadMagic) };
    }
    if image[4] != 2 || image[5] != 1 {
        return Loaded { segments, result: Err(LoadError::Unsupported) };
    }
    if bytes::get_u16(image, 16) != ET_EXEC || bytes::get_u16(image, 18) != EM_X86_64 {
        return Loaded { segments, result: Err(LoadError::Unsupported) };
    }
    let entry: u64 = bytes::get_u64(image, 24);
    let phoff: u64 = bytes::get_u64(image, 32);
    let phentsize: u16 = bytes::get_u16(image, 54);
    let phnum: u16 = bytes::get_u16(image, 56);
    if phentsize < 56 {
        return Loaded { segments, result: Err(LoadError::Unsupported) };
    }
    let ghost all = segments_from(image@, 0);
    let mut i: u16 = 0;
    assert(segments@ + all.0 =~= all.0);
    while i < phnum
        invariant
            i <= phnum,
            phnum == bytes::le_u16(image@, 56),
            phentsize == bytes::le_u16(image@, 54),
            phoff == bytes::le_u64(image@, 32),
            header_error(image@) is None,
            all == segments_from(image@, 0),
            segments@ + segments_from(image@, i as int).0 == all.0,
            segments_from(image@, i as int).1 == all.1,
        decreases phnum - i,
    {
        let ghost here = segments_from(image@, i as int);
        let ghost rest = segments_from(image@, i + 1);
        let ghost before = segments@;
        assert(0 <= i * phentsize <= 0xFFFF * 0xFFFF) by (nonlinear_arith)
            requires
                0 <= i <= 0xFFFF,
                0 <= phentsize <= 0xFFFF,
        ;
        let skip: u64 = i as u64 * phentsize as u64;
        let header: Result<Option<Segment>, LoadError> = match phoff.checked_add(skip) {
            None => Err(LoadError::Truncated),
            Some(ph) => read_header(image, ph),
        };
        assert(header == header_at(image@, header_off(image@, i as int))) by {
            assert(image.len() == image@.len());
        }
        match header {
            Err(e) => {
                assert(segments@ + Seq::<Segment>::empty() =~= segments@);
                return Loaded { segments, result: Err(e) };
            },
            Ok(None) => {},
            Ok(Some(s)) => {
                segments.push(s);
                assert(segments@ + rest.0 =~= before + (seq![s] + rest.0));
            },
        }
        i = i + 1;
    }
    assert(segments@ + Seq::<Segment>::empty() =~= segments@);
    if segments.len() == 0 || entry < USER_MIN || entry >= USER_MAX {
        return Loaded { segments, result: Err(LoadError::BadSegment) };
    }
    Loaded { segments, result: Ok(LoadedImage { entry }) }
}

/// Every segment to be mapped lies in the user range, in whole pages that cover
/// it, and takes its bytes from inside the image.
#[verifier::spinoff_prover]
pub proof fn lemma_segments_in_range(b: Seq<u8>, i: int, k: int)
    requires
        0 <= i,
        0 <= k < segments_from(b, i).0.len(),
    ensures
        ({
            let s = segments_from(b, i).0[k];
            &&& USER_MIN <= s.first_page <= s.vaddr
            &&& s.first_page % 4096 == 0
            &&& s.vaddr + s.memsz <= USER_MAX
            &&& s.vaddr + s.memsz <= s.first_page + s.pages * 4096
            &&& s.first_page + s.pages * 4096 < s.vaddr + s.memsz + 4096
            &&& s.offset + s.filesz <= b.len()
            &&& s.filesz <= s.memsz
        }),
    decreases bytes::le_u16(b, 56) - i,
{
    match header_at(b, header_off(b, i)) {
        Err(_) => {},
        Ok(None) => {
            lemma_segments_in_range(b, i + 1, k);
        },
        Ok(Some(s)) => {
            if k > 0 {
                lemma_segments_in_range(b, i + 1, k - 1);
                assert(segments_from(b, i).0[k] == segments_from(b, i + 1).0[k - 1]);
            } else {
                assert(segments_from(b, i).0[0] == s);
            }
        },
    }
}

/// Program header `i` of an image is for a part of it that is to be in memory.
pub open spec fn is_loaded(b: Seq<u8>, i: int) -> bool {
    let ph = bytes::le_u64(b, 32) + i * bytes::le_u16(b, 54);
    bytes::le_u32(b, ph) == 1 && bytes::le_u64(b, ph + 40) > 0
}

/// Segment `s` is what program header `i` of an image says.
pub open spec fn is_from(s: Segment, b: Seq<u8>, i: int) -> bool {
    let ph = bytes::le_u64(b, 32) + i * bytes::le_u16(b, 54);
    let flags = bytes::le_u32(b, ph + 4);
    &&& s.offset == bytes::le_u64(b, ph + 8)
    &&& s.vaddr == bytes::le_u64(b, ph + 16)
    &&& s.filesz == bytes::le_u64(b, ph + 32)
    &&& s.memsz == bytes::le_u64(b, ph + 40)
    &&& s.executable <==> flags % 2 == 1
    &&& s.writable <==> flags / 2 % 2 == 1
}

/// The segments of an image are its loadable program headers: each of them once,
/// in their order, and nothing else. `at` is where each comes from.
pub proof fn lemma_segments_are_headers(b: Seq<u8>, r: &Loaded) -> (at: Seq<int>)
    requires
        (r.segments@, r.result) == image_of(b),
        r.result is Ok,
    ensures
        at.len() == r.segments@.len(),
        forall|k: int|
            #![trigger at[k]]
            0 <= k < at.len() ==> {
                &&& 0 <= at[k] < bytes::le_u16(b, 56)
                &&& is_loaded(b, at[k])
                &&& is_from(r.segments@[k], b, at[k])
            },
        forall|j: int, k: int| #![trigger at[j], at[k]] 0 <= j < k < at.len() ==> at[j] < at[k],
        forall|i: int| 0 <= i < bytes::le_u16(b, 56) && #[trigger] is_loaded(b, i) ==> at.contains(i),
{
    lemma_headers_from(b, 0)
}

proof fn lemma_headers_from(b: Seq<u8>, i: int) -> (at: Seq<int>)
    requires
        0 <= i,
        segments_from(b, i).1 is None,
    ensures
        at.len() == segments_from(b, i).0.len(),
        forall|k: int|
            #![trigger at[k]]
            0 <= k < at.len() ==> {
                &&& i <= at[k] < bytes::le_u16(b, 56)
                &&& is_loaded(b, at[k])
                &&& is_from(segments_from(b, i).0[k], b, at[k])
            },
        forall|j: int, k: int| #![trigger at[j], at[k]] 0 <= j < k < at.len() ==> at[j] < at[k],
        forall|j: int| i <= j < bytes::le_u16(b, 56) && #[trigger] is_loaded(b, j) ==> at.contains(j),
    decreases bytes::le_u16(b, 56) - i,
{
    if i >= bytes::le_u16(b, 56) {
        Seq::empty()
    } else {
        let rest = lemma_headers_from(b, i + 1);
        let ph = header_off(b, i);
        let flags = bytes::le_u32(b, ph + 4);
        assert((flags & 2 != 0 <==> flags / 2 % 2 == 1) && (flags & 1 != 0 <==> flags % 2 == 1)) by (bit_vector);
        match header_at(b, ph) {
            Ok(Some(s)) => {
                let at = seq![i] + rest;
                let all = segments_from(b, i).0;
                let less = segments_from(b, i + 1).0;
                assert(all =~= seq![s] + less);
                assert forall|k: int| #![trigger at[k]] 0 <= k < at.len() implies {
                    &&& i <= at[k] < bytes::le_u16(b, 56)
                    &&& is_loaded(b, at[k])
                    &&& is_from(all[k], b, at[k])
                } by {
                    if k > 0 {
                        assert(at[k] == rest[k - 1]);
                        assert(all[k] == less[k - 1]);
                    }
                }
                assert forall|j: int, k: int| #![trigger at[j], at[k]] 0 <= j < k < at.len() implies at[j] < at[k] by {
                    assert(at[k] == rest[k - 1]);
                    if j > 0 {
                        assert(at[j] == rest[j - 1]);
                    }
                }
                assert forall|j: int| i <= j < bytes::le_u16(b, 56) && #[trigger] is_loaded(b, j) implies at.contains(
                    j,
                ) by {
                    if j == i {
                        assert(at[0] == i);
                    } else {
                        let m = choose|m: int| 0 <= m < rest.len() && rest[m] == j;
                        assert(at[m + 1] == j);
                    }
                }
                at
            },
            _ => rest,
        }
    }
}

/// An image is accepted only if it is a static 64-bit little-endian ELF executable
/// for x86-64 that has something to load and starts inside the user range, where
/// it says.
pub proof fn lemma_image_accepted(b: Seq<u8>, r: &Loaded)
    requires
        (r.segments@, r.result) == image_of(b),
    ensures
        r.result matches Ok(img) ==> {
            &&& b.len() >= 64
            &&& b[0] == 0x7F && b[1] == 0x45 && b[2] == 0x4C && b[3] == 0x46
            &&& b[4] == 2 && b[5] == 1
            &&& b[16] == 2 && b[17] == 0
            &&& b[18] == 0x3E && b[19] == 0
            &&& r.segments@.len() > 0
            &&& img.entry == bytes::le_u64(b, 24)
            &&& 0x40_0000 <= img.entry < 0x7fff_0000_0000
        },
        b.len() < 64 || b[0] != 0x7F || b[1] != 0x45 || b[2] != 0x4C || b[3] != 0x46 ==> r.result == Err::<
            LoadedImage,
            LoadError,
        >(LoadError::BadMagic),
{
}

} // verus!
