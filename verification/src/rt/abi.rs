//! The system-call ABI as a task sees it: call numbers, error codes, messages
//! and capability slots.
use vstd::prelude::*;

verus! {

/// Capability rights bits, as understood by the kernel.
pub const RIGHT_SEND: u32 = 0x01;

pub const RIGHT_RECV: u32 = 0x02;

pub const RIGHT_GRANT: u32 = 0x04;

pub const RIGHT_MAP_READ: u32 = 0x08;

pub const RIGHT_MAP_WRITE: u32 = 0x10;

pub const RIGHT_DMA: u32 = 0x20;

pub const RIGHT_SPAWN: u32 = 0x40;

/// Word 3 of a received message when no capability was attached.
pub const NO_CAP: u64 = u64::MAX;

/// Why a call failed.
#[derive(Clone, Copy, Debug, PartialEq, Eq, Structural)]
pub enum Error {
    Perm,
    Again,
    Fault,
    Inval,
    NoSys,
    NoMem,
    Unknown,
}

impl Error {
    /// The number the kernel returns for an error; every number that stands
    /// for none of the others is [`Error::Unknown`].
    pub open spec fn raw(self) -> int {
        match self {
            Error::Perm => -1,
            Error::Again => -2,
            Error::Fault => -3,
            Error::Inval => -4,
            Error::NoSys => -5,
            Error::NoMem => -6,
            Error::Unknown => -1000,
        }
    }

    /// The error a negative return value stands for.
    pub fn from_raw(v: i64) -> (r: Self)
        ensures
            r != Error::Unknown ==> r.raw() == v,
            r == Error::Unknown <==> !(-6 <= v <= -1),
    {
        match v {
            -1 => Error::Perm,
            -2 => Error::Again,
            -3 => Error::Fault,
            -4 => Error::Inval,
            -5 => Error::NoSys,
            -6 => Error::NoMem,
            _ => Error::Unknown,
        }
    }
}

/// What a return value says: negative values are errors.
pub fn check(v: i64) -> (r: Result<u64, Error>)
    ensures
        r is Err <==> v < 0,
        r matches Ok(n) ==> n == v,
        r matches Err(e) ==> (e != Error::Unknown ==> e.raw() == v) && (e == Error::Unknown <==> v < -6),
{
    if v < 0 {
        Err(Error::from_raw(v))
    } else {
        Ok(v as u64)
    }
}

/// A slot of the caller's capability table.
#[derive(Clone, Copy, Debug, PartialEq, Eq, Structural)]
pub struct Cap(pub u32);

/// A message as it arrives.
#[derive(Clone, Copy, Debug)]
pub struct Message {
    pub sender: u32,
    pub words: [u64; 4],
    /// Capability that arrived with the message, already in our table.
    pub cap: Option<Cap>,
}

impl Default for Message {
    /// A message of zeroes from task 0.
    fn default() -> (r: Self)
        ensures
            r.sender == 0,
            r.words@ == seq![0u64, 0, 0, 0],
            r.cap is None,
    {
        let words: [u64; 4] = [0u64, 0, 0, 0];
        assert(words@ =~= seq![0u64, 0, 0, 0]);
        Message { sender: 0, words, cap: None }
    }
}

/// The low 32 bits of a word.
pub open spec fn low32(v: u64) -> u32 {
    (v % 0x1_0000_0000) as u32
}

/// The slot a message's last word names, if a capability was attached.
pub open spec fn attached(word: u64) -> Option<Cap> {
    if word == NO_CAP {
        None
    } else {
        Some(Cap(low32(word)))
    }
}

impl Message {
    /// Put together what a successful receive returned: the sender and the
    /// four words the kernel stored.
    pub fn decode(sender: u64, words: [u64; 4]) -> (r: Message)
        ensures
            r.sender == low32(sender),
            r.words == words,
            r.cap == attached(words@[3]),
    {
        let w: u64 = words[3];
        let cap: Option<Cap> = if w != NO_CAP {
            Some(Cap((w % 0x1_0000_0000) as u32))
        } else {
            None
        };
        Message { sender: (sender % 0x1_0000_0000) as u32, words, cap }
    }
}

/// Each error has a number of its own below zero, and a return value of the
/// kernel tells the caller which it was.
pub proof fn lemma_error_numbers(e: Error, f: Error)
    ensures
        e.raw() == f.raw() <==> e == f,
        e.raw() == -1 <==> e is Perm,
        e.raw() == -2 <==> e is Again,
        e.raw() == -3 <==> e is Fault,
        e.raw() == -4 <==> e is Inval,
        e.raw() == -5 <==> e is NoSys,
        e.raw() == -6 <==> e is NoMem,
        e.raw() < 0,
{
}

/// A word names the slot it is the number of, and the word of all ones names none.
pub proof fn lemma_attached(slot: u32, word: u64)
    ensures
        attached(slot as u64) == Some(Cap(slot)),
        attached(word) is None <==> word == 0xFFFF_FFFF_FFFF_FFFF,
        low32(slot as u64) == slot,
        (word - low32(word)) % 0x1_0000_0000 == 0,
{
}

} // verus!
