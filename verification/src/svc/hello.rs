//! `hello`: the smallest service that does real work. It lists the service
//! directory and reads the volume README over the file protocol; every failure
//! is survived.
use vstd::prelude::*;
use vstd::slice::slice_subrange;
use vstd::string::*;

use crate::bytes;
use crate::rt::fsproto;
use crate::rt::fsproto::DirRec;
use crate::text;

verus! {

/// Listing entries shown at start-up.
pub const MAX_ENTRIES: usize = 16;

/// What the service does next while it looks at the files.
#[derive(Clone, Copy, Debug, PartialEq, Eq, Structural)]
pub enum Stage {
    /// Find the file service among the capabilities.
    Find,
    /// Connect to it.
    Connect,
    /// List /SVC.
    List,
    /// Ask for the size of the README.
    Stat,
    /// Open the README.
    Open,
    /// Read it whole.
    Read,
    /// Close it.
    Close,
    /// Ask for a file that is not there.
    Probe,
    /// Give the connection up.
    Disconnect,
    /// Nothing: the files have been looked at.
    Done,
}

/// The most stages that may still follow.
pub open spec fn left(stage: Stage) -> nat {
    match stage {
        Stage::Find => 9,
        Stage::Connect => 8,
        Stage::List => 7,
        Stage::Stat => 6,
        Stage::Open => 5,
        Stage::Read => 4,
        Stage::Close => 3,
        Stage::Probe => 2,
        Stage::Disconnect => 1,
        Stage::Done => 0,
    }
}

/// What follows a stage that went well or failed. Without the file service, a
/// connection or an open file there is nothing more to do; any other failure is
/// passed over.
pub fn next(stage: Stage, ok: bool) -> (r: Stage)
    ensures
        !ok && (stage is Find || stage is Connect || stage is Open) ==> r is Done,
        ok && stage is Find ==> r is Connect,
        ok && stage is Connect ==> r is List,
        stage is List ==> r is Stat,
        stage is Stat ==> r is Open,
        ok && stage is Open ==> r is Read,
        stage is Read ==> r is Close,
        stage is Close ==> r is Probe,
        stage is Probe ==> r is Disconnect,
        stage is Disconnect || stage is Done ==> r is Done,
        stage !is Done ==> left(r) < left(stage),
{
    match stage {
        Stage::Find => if ok {
            Stage::Connect
        } else {
            Stage::Done
        },
        Stage::Connect => if ok {
            Stage::List
        } else {
            Stage::Done
        },
        Stage::List => Stage::Stat,
        Stage::Stat => Stage::Open,
        Stage::Open => if ok {
            Stage::Read
        } else {
            Stage::Done
        },
        Stage::Read => Stage::Close,
        Stage::Close => Stage::Probe,
        Stage::Probe => Stage::Disconnect,
        Stage::Disconnect => Stage::Done,
        Stage::Done => Stage::Done,
    }
}

/// A listing entry's name as text.
pub open spec fn name_text(e: DirRec) -> Seq<char> {
    match text::text_in(fsproto::shown_name(e.name@)) {
        Some(t) => t,
        None => "?"@,
    }
}

/// The names of listing entries, with a blank between two. A blank comes only
/// after some name.
pub open spec fn joined(entries: Seq<DirRec>) -> Seq<char>
    decreases entries.len(),
{
    if entries.len() == 0 {
        Seq::empty()
    } else {
        let before = joined(entries.drop_last());
        if before.len() == 0 {
            name_text(entries.last())
        } else {
            before + seq![' '] + name_text(entries.last())
        }
    }
}

/// The names of the first `n` entries of a listing, for showing.
pub fn names(entries: &[DirRec], n: usize) -> (r: String)
    ensures
        r@ == joined(
            entries@.take(
                if n <= entries@.len() {
                    n as int
                } else {
                    entries@.len() as int
                },
            ),
        ),
{
    let m: usize = if n <= entries.len() {
        n
    } else {
        entries.len()
    };
    let mut out: String = String::new();
    let mut i: usize = 0;
    assert(entries@.take(0) =~= Seq::<DirRec>::empty());
    while i < m
        invariant
            i <= m <= entries@.len(),
            entries@.len() == entries.len(),
            out@ == joined(entries@.take(i as int)),
        decreases m - i,
    {
        let mut buf: [u8; 13] = [0u8; 13];
        let e: DirRec = entries[i];
        let name: &str = e.display(&mut buf);
        proof {
            vstd::utf8::encode_utf8_decode_utf8(name@);
            assert(name@ == name_text(entries@[i as int]));
            assert(entries@.take(i + 1).drop_last() =~= entries@.take(i as int));
            assert(entries@.take(i + 1).last() == entries@[i as int]);
            reveal_strlit(" ");
            assert(" "@ =~= seq![' ']);
        }
        if out.as_str().unicode_len() > 0 {
            out.append(" ");
        }
        out.append(name);
        assert(out@ =~= joined(entries@.take(i + 1)));
        i = i + 1;
    }
    out
}

/// The end of the word "entry" after a number of entries.
pub fn plural(n: usize) -> (r: &'static str)
    ensures
        r@ == if n == 1 {
            "y"@
        } else {
            "ies"@
        },
{
    if n == 1 {
        "y"
    } else {
        "ies"
    }
}

/// The first line of a file; "?" if it is no text.
pub fn first_line(file: &[u8]) -> (r: &str)
    ensures
        r@ == match text::text_in(file@.subrange(0, bytes::find(file@, 0x0A, 0))) {
            Some(t) => t,
            None => "?"@,
        },
{
    proof {
        bytes::lemma_find(file@, 0x0A, 0);
    }
    let n: usize = bytes::find_byte(file, 0x0A, 0);
    match text::text_of(slice_subrange(file, 0, n)) {
        Some(s) => s,
        None => "?",
    }
}

/// A single name is shown as it is. Names shown together are those of the first
/// part, a blank, and those of the rest, wherever the parting is.
pub proof fn lemma_joined(a: Seq<DirRec>, b: Seq<DirRec>)
    requires
        joined(a).len() > 0,
        b.len() > 0,
        joined(b.take(1)).len() > 0,
    ensures
        joined(a + b) == joined(a) + seq![' '] + joined(b),
        joined(b).len() > 0,
        a.len() == 1 ==> joined(a) == match text::text_in(fsproto::shown_name(a[0].name@)) {
            Some(t) => t,
            None => seq!['?'],
        },
    decreases b.len(),
{
    reveal_strlit("?");
    assert("?"@ =~= seq!['?']);
    let e = b.last();
    assert((a + b).last() == e);
    assert((a + b).drop_last() =~= a + b.drop_last());
    if a.len() == 1 {
        assert(joined(a.drop_last()).len() == 0);
        assert(a.last() == a[0]);
    }
    if b.len() == 1 {
        assert(b.take(1) =~= b);
        assert(joined(b.drop_last()).len() == 0);
        assert(a + b.drop_last() =~= a);
        assert(joined(a + b) =~= joined(a) + seq![' '] + joined(b));
    } else {
        assert(b.drop_last().take(1) =~= b.take(1));
        lemma_joined(a, b.drop_last());
        assert(joined(a + b) =~= joined(a) + seq![' '] + joined(b));
    }
}

} // verus!
