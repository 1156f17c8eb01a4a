//! What ping and pong say to each other.
use vstd::prelude::*;
use vstd::slice::slice_subrange;
use vstd::string::*;

use crate::bytes;
use crate::text;

verus! {

pub const PING: u64 = 0x5049_4E47;

pub const PONG: u64 = 0x504F_4E47;

/// Tag of the message that hands over the shared page.
pub const SHM_TAG: u64 = 0x5348_4D21;

/// Where ping writes its answer in the shared page.
pub const ACK_OFFSET: usize = 256;

/// Longest answer that is shown.
pub const ACK_MAX: usize = 64;

/// pong's answer to a request: the next number, who asked, and its tag.
pub fn pong_reply(n: u64, sender: u32) -> (r: (u64, u64, u64))
    requires
        n < u64::MAX,
    ensures
        r == ((n + 1) as u64, sender as u64, PONG),
{
    (n + 1, sender as u64, PONG)
}

/// What ping wrote back through the shared page: text up to a NUL.
pub fn shared_text(page: &[u8]) -> (r: &str)
    requires
        page@.len() >= ACK_OFFSET + ACK_MAX,
    ensures
        ({
            let ack = page@.subrange(ACK_OFFSET as int, ACK_OFFSET + ACK_MAX);
            r@ == match text::text_in(ack.subrange(0, bytes::find(ack, 0, 0))) {
                Some(t) => t,
                None => "<bad utf8>"@,
            }
        }),
{
    let ack: &[u8] = slice_subrange(page, ACK_OFFSET, ACK_OFFSET + ACK_MAX);
    proof {
        bytes::lemma_find(ack@, 0, 0);
    }
    let n: usize = bytes::find_byte(ack, 0, 0);
    match text::text_of(slice_subrange(ack, 0, n)) {
        Some(s) => s,
        None => "<bad utf8>",
    }
}

} // verus!
