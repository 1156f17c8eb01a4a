//! Messages.
use vstd::prelude::*;

use crate::kernel::obj::Capability;

verus! {

pub const MSG_WORDS: usize = 4;

/// Four words, the sender, and possibly a capability.
#[derive(Clone, Copy, Debug)]
pub struct Message {
    pub sender: u32,
    pub words: [u64; 4],
    pub cap: Option<Capability>,
}

impl Message {
    pub fn new(sender: u32, words: [u64; 4]) -> (r: Self)
        ensures
            r.sender == sender,
            r.words == words,
            r.cap is None,
    {
        Message { sender, words, cap: None }
    }
}

} // verus!
