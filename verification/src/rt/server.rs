//! Server side of a capability service: one endpoint that many clients call.
//!
//! A client says hello by sending the endpoint its replies should go to,
//! usually together with a shared buffer. The server remembers that pair per
//! client task, which is what lets a single listener serve many clients
//! without giving any of them ambient authority: a client can only be replied
//! to on the endpoint it handed over itself.
use vstd::prelude::*;

use crate::rt::abi::{Cap, Error, Message};
use crate::rt::fsproto::{BYE, CONNECT, MAX_CLIENTS, REGISTER_BUF};
use crate::rt::calls;
use crate::rt::calls::{Call, SYS_SEND};

verus! {

/// What the server knows about one connected client.
#[derive(Clone, Copy, Debug, PartialEq, Eq, Structural)]
pub struct Client {
    /// Task that sent us the messages; also the key we reply to.
    pub task: u32,
    /// Where replies go: the client's own endpoint, once it has sent it.
    pub reply: Option<Cap>,
    /// The client's shared buffer, if it registered one.
    pub buf: Option<Cap>,
    /// Address of our mapping of that buffer.
    pub map: Option<u64>,
    pub map_len: usize,
}

/// A client that has just turned up.
pub open spec fn fresh(task: u32) -> Client {
    Client { task, reply: None, buf: None, map: None, map_len: 0 }
}

impl Client {
    fn new(task: u32) -> (r: Self)
        ensures
            r == fresh(task),
    {
        Client { task, reply: None, buf: None, map: None, map_len: 0 }
    }

    /// Whether the client has told us where to send its replies.
    pub fn has_reply(&self) -> (r: bool)
        ensures
            r == (self.reply is Some),
    {
        self.reply.is_some()
    }
}

/// A request taken off the wire, with the client it came from.
#[derive(Clone, Copy, Debug, PartialEq, Eq, Structural)]
pub struct Request {
    pub op: u64,
    /// Bytes the client says it wrote into the request block.
    pub req_len: u64,
    /// Bytes it wants reserved for the result.
    pub want: u64,
    pub client: u32,
    /// A capability that arrived with the request, if any.
    pub cap: Option<Cap>,
}

/// What a received message asks of the server's loop.
#[derive(Clone, Copy, Debug, PartialEq, Eq, Structural)]
pub enum Step {
    /// The message is dealt with; wait for the next.
    Again,
    /// Map this client's buffer and hand the result to [`Server::register`].
    MapBuffer { task: u32, buf: Cap, pages: u64 },
    /// A request to answer.
    Serve(Request),
}

/// The clients of one listener.
pub struct Server {
    pub listen: Cap,
    pub clients: [Option<Client>; 16],
    pub cursor: usize,
}

/// First slot at or after `i` that belongs to `task`, or the length.
pub open spec fn slot_from(cs: Seq<Option<Client>>, task: u32, i: int) -> int
    decreases cs.len() - i,
{
    if i >= cs.len() {
        cs.len() as int
    } else if cs[i] is Some && cs[i]->0.task == task {
        i
    } else {
        slot_from(cs, task, i + 1)
    }
}

/// Number of slots in use among the first `n`.
pub open spec fn used(cs: Seq<Option<Client>>, n: int) -> int
    decreases n,
{
    if n <= 0 {
        0
    } else {
        used(cs, n - 1) + if cs[n - 1] is Some {
            1int
        } else {
            0
        }
    }
}

/// The pages a buffer counts for: at least one, at most 4096.
pub open spec fn clamped(pages: u64) -> u64 {
    if pages < 1 {
        1
    } else if pages > 4096 {
        4096
    } else {
        pages
    }
}

/// A client that has said where replies go.
pub open spec fn with_reply(c: Client, reply: Cap) -> Client {
    Client { reply: Some(reply), ..c }
}

/// A client that has handed over a buffer: without one if it could not be
/// mapped.
pub open spec fn with_buffer(c: Client, buf: Cap, pages: u64, mapped: Result<u64, Error>) -> Client {
    match mapped {
        Ok(p) => Client {
            buf: Some(buf),
            map: Some(p),
            map_len: (clamped(pages) * 4096) as usize,
            ..c
        },
        Err(_) => Client { buf: None, map: None, map_len: 0, ..c },
    }
}

impl Server {
    /// What the server knows about a task.
    pub open spec fn client_of(&self, task: u32) -> Option<Client> {
        let i = slot_from(self.clients@, task, 0);
        if i < self.clients@.len() {
            self.clients@[i]
        } else {
            None
        }
    }

    /// Clients currently connected.
    pub open spec fn connected(&self) -> int {
        used(self.clients@, 16)
    }

    /// Every task has at most one slot.
    pub open spec fn wf(&self) -> bool {
        &&& self.cursor < 16
        &&& forall|i: int, j: int|
            #![trigger self.clients@[i], self.clients@[j]]
            0 <= i < j < 16 && self.clients@[i] is Some && self.clients@[j] is Some
                ==> self.clients@[i]->0.task != self.clients@[j]->0.task
    }

    /// Whether a task is known or there is room for it.
    pub open spec fn has_room(&self, task: u32) -> bool {
        self.client_of(task) is Some || self.connected() < MAX_CLIENTS
    }

    /// The client a task is, or would be on first contact.
    pub open spec fn client_or_fresh(&self, task: u32) -> Client {
        match self.client_of(task) {
            Some(c) => c,
            None => fresh(task),
        }
    }

    /// The server that has `c` as what it knows about `task`, and knows of
    /// every other task what `old` knows.
    pub open spec fn with_client(&self, old: &Server, task: u32, c: Option<Client>) -> bool {
        &&& self.listen == old.listen
        &&& self.client_of(task) == c
        &&& forall|t: u32| t != task ==> #[trigger] self.client_of(t) == old.client_of(t)
        &&& self.connected() == old.connected() + (if c is Some {
            1int
        } else {
            0
        }) - (if old.client_of(task) is Some {
            1int
        } else {
            0
        })
    }

    pub fn new(listen: Cap) -> (r: Self)
        ensures
            r.wf(),
            r.listen == listen,
            r.connected() == 0,
            forall|t: u32| #[trigger] r.client_of(t) is None,
    {
        let r: Server = Server { listen, clients: [None::<Client>; 16], cursor: 0 };
        proof {
            lemma_none_used(r.clients@, 16);
            assert forall|t: u32| #[trigger] r.client_of(t) is None by {
                lemma_slot(r.clients@, t, 0);
            }
        }
        r
    }

    /// Clients currently connected.
    pub fn client_count(&self) -> (r: usize)
        ensures
            r == self.connected(),
            r <= MAX_CLIENTS,
    {
        let mut n: usize = 0;
        let mut i: usize = 0;
        while i < MAX_CLIENTS
            invariant
                i <= 16,
                n <= i,
                n == used(self.clients@, i as int),
            decreases 16 - i,
        {
            if self.clients[i].is_some() {
                n = n + 1;
            }
            i = i + 1;
        }
        n
    }

    fn slot_of(&self, task: u32) -> (r: usize)
        ensures
            r == slot_from(self.clients@, task, 0),
            r <= 16,
            r < 16 ==> self.clients@[r as int] is Some && self.clients@[r as int]->0.task == task,
    {
        let mut i: usize = 0;
        while i < MAX_CLIENTS
            invariant
                i <= 16,
                slot_from(self.clients@, task, 0) == slot_from(self.clients@, task, i as int),
            decreases 16 - i,
        {
            if let Some(c) = self.clients[i] {
                if c.task == task {
                    return i;
                }
            }
            i = i + 1;
        }
        i
    }

    /// The client's slot, created on first contact. The two handshakes are
    /// independent, so either may arrive first and a client may even re-send
    /// one to change it. Returns the number of slots when there is no room.
    fn slot_of_or_new(&mut self, task: u32) -> (r: usize)
        requires
            old(self).wf(),
        ensures
            final(self).wf(),
            r <= 16,
            r < 16 <==> old(self).has_room(task),
            r == 16 ==> *final(self) == *old(self),
            r < 16 ==> {
                &&& r == slot_from(final(self).clients@, task, 0)
                &&& final(self).clients@[r as int] == Some(old(self).client_or_fresh(task))
                &&& old(self).client_or_fresh(task).task == task
                &&& final(self).with_client(old(self), task, Some(old(self).client_or_fresh(task)))
            },
    {
        let at: usize = self.slot_of(task);
        if at < MAX_CLIENTS {
            return at;
        }
        let ghost cs = self.clients@;
        let start: usize = self.cursor;
        let mut cursor: usize = start;
        let mut n: usize = 0;
        while n < MAX_CLIENTS
            invariant
                self == old(self),
                self.wf(),
                start == self.cursor,
                cs == self.clients@,
                n <= 16,
                cursor < 16,
                cursor == (start + n) % 16,
                at == 16,
                at == slot_from(cs, task, 0),
                forall|k: int| 1 <= k <= n ==> (#[trigger] cs[wrap(start + k)]) is Some,
            decreases 16 - n,
        {
            cursor = (cursor + 1) % MAX_CLIENTS;
            if self.clients[cursor].is_none() {
                self.clients[cursor] = Some(Client::new(task));
                self.cursor = cursor;
                proof {
                    lemma_taken(cs, self.clients@, cursor as int, task, fresh(task));
                    assert(self.wf()) by {
                        assert forall|i: int, j: int|
                            #![trigger self.clients@[i], self.clients@[j]]
                            0 <= i < j < 16 && self.clients@[i] is Some && self.clients@[j] is Some
                                implies self.clients@[i]->0.task != self.clients@[j]->0.task by {
                            lemma_slot(cs, task, 0);
                            assert(cs[i] == cs[i] && cs[j] == cs[j]);
                        }
                    }
                    lemma_count_update(cs, cursor as int, Some(fresh(task)), 16);
                    lemma_used_bounds(cs, 16);
                    lemma_used_full(cs, 16, cursor as int);
                }
                return cursor;
            }
            n = n + 1;
            assert(cursor == wrap(start + n));
        }
        proof {
            assert forall|i: int| 0 <= i < 16 implies (#[trigger] cs[i]) is Some by {
                let k = if i > start {
                    i - start
                } else {
                    i - start + 16
                };
                assert(cs[wrap(start + k)] is Some);
                assert(wrap(start + k) == i);
            }
            lemma_all_used(cs, 16);
        }
        16
    }

    /// What the server knows about a task, if it has connected.
    pub fn client(&self, task: u32) -> (r: Option<Client>)
        ensures
            r == self.client_of(task),
    {
        let i: usize = self.slot_of(task);
        if i < MAX_CLIENTS {
            self.clients[i]
        } else {
            None
        }
    }

    /// Take in one message: handle the connection handshakes and `BYE`, or hand
    /// the request out. Opcodes live in the low 16 bits; a buffer registration
    /// carries its page count above them.
    pub fn on_message(&mut self, m: &Message) -> (r: Step)
        requires
            old(self).wf(),
        ensures
            final(self).wf(),
            ({
                let op = m.words@[0] % 0x1_0000;
                let task = m.sender;
                let c = old(self).client_or_fresh(task);
                if op == CONNECT {
                    &&& r == Step::Again
                    &&& m.cap is None || !old(self).has_room(task) ==> *final(self) == *old(self)
                    &&& m.cap is Some && old(self).has_room(task) ==> final(self).with_client(
                        old(self),
                        task,
                        Some(Client { reply: m.cap, ..c }),
                    )
                } else if op == REGISTER_BUF {
                    if m.cap is None || !old(self).has_room(task) {
                        r == Step::Again && *final(self) == *old(self)
                    } else {
                        &&& r == Step::MapBuffer {
                            task,
                            buf: m.cap->0,
                            pages: clamped(m.words@[0] / 0x1_0000_0000),
                        }
                        &&& final(self).with_client(old(self), task, Some(c))
                    }
                } else if op == BYE {
                    &&& r == Step::Again
                    &&& final(self).with_client(old(self), task, None)
                } else {
                    &&& r == Step::Serve(
                        Request {
                            op,
                            req_len: m.words@[1],
                            want: m.words@[2],
                            client: task,
                            cap: m.cap,
                        },
                    )
                    &&& *final(self) == *old(self)
                }
            }),
    {
        let raw: u64 = m.words[0];
        let op: u64 = raw % 0x1_0000;
        let task: u32 = m.sender;
        if op == CONNECT {
            if let Some(reply) = m.cap {
                let _ = self.connect(task, reply);
            }
            Step::Again
        } else if op == REGISTER_BUF {
            match m.cap {
                None => Step::Again,
                Some(buf) => {
                    let i: usize = self.slot_of_or_new(task);
                    if i < MAX_CLIENTS {
                        Step::MapBuffer { task, buf, pages: clamp_pages(raw / 0x1_0000_0000) }
                    } else {
                        Step::Again
                    }
                },
            }
        } else if op == BYE {
            self.drop_client(task);
            Step::Again
        } else {
            Step::Serve(
                Request { op, req_len: m.words[1], want: m.words[2], client: task, cap: m.cap },
            )
        }
    }

    /// Remember (or replace) the endpoint a client's replies go to.
    pub fn connect(&mut self, task: u32, reply: Cap) -> (r: bool)
        requires
            old(self).wf(),
        ensures
            final(self).wf(),
            r == old(self).has_room(task),
            !r ==> *final(self) == *old(self),
            r ==> final(self).with_client(
                old(self),
                task,
                Some(with_reply(old(self).client_or_fresh(task), reply)),
            ),
    {
        let i: usize = self.slot_of_or_new(task);
        if i >= MAX_CLIENTS {
            return false;
        }
        if let Some(c) = self.clients[i] {
            let n: Client = Client {
                task: c.task,
                reply: Some(reply),
                buf: c.buf,
                map: c.map,
                map_len: c.map_len,
            };
            self.replace(i, n);
        }
        true
    }

    /// Put new knowledge about the client in slot `i` in place of the old.
    fn replace(&mut self, i: usize, c: Client)
        requires
            old(self).wf(),
            i < 16,
            old(self).clients@[i as int] is Some,
            old(self).clients@[i as int]->0.task == c.task,
            i == slot_from(old(self).clients@, c.task, 0),
        ensures
            final(self).wf(),
            final(self).with_client(old(self), c.task, Some(c)),
    {
        let ghost cs = self.clients@;
        self.clients[i] = Some(c);
        proof {
            assert(self.wf()) by {
                assert forall|p: int, q: int|
                    #![trigger self.clients@[p], self.clients@[q]]
                    0 <= p < q < 16 && self.clients@[p] is Some && self.clients@[q] is Some
                        implies self.clients@[p]->0.task != self.clients@[q]->0.task by {
                    assert(cs[p] is Some && cs[q] is Some);
                }
            }
            lemma_taken(cs, self.clients@, i as int, c.task, c);
            lemma_count_update(cs, i as int, Some(c), 16);
        }
    }

    /// Remember how mapping a client's shared buffer of `pages` pages went,
    /// replacing any previous one.
    pub fn register(&mut self, task: u32, buf: Cap, pages: u64, mapped: Result<u64, Error>) -> (r: bool)
        requires
            old(self).wf(),
        ensures
            final(self).wf(),
            r == old(self).has_room(task),
            !r ==> *final(self) == *old(self),
            r ==> final(self).with_client(
                old(self),
                task,
                Some(with_buffer(old(self).client_or_fresh(task), buf, pages, mapped)),
            ),
    {
        let i: usize = self.slot_of_or_new(task);
        if i >= MAX_CLIENTS {
            return false;
        }
        if let Some(c) = self.clients[i] {
            let n: Client = match mapped {
                Ok(p) => Client {
                    task: c.task,
                    reply: c.reply,
                    buf: Some(buf),
                    map: Some(p),
                    map_len: (clamp_pages(pages) * 4096) as usize,
                },
                Err(_) => Client { task: c.task, reply: c.reply, buf: None, map: None, map_len: 0 },
            };
            self.replace(i, n);
        }
        true
    }

    /// Forget a client.
    pub fn drop_client(&mut self, task: u32)
        requires
            old(self).wf(),
        ensures
            final(self).wf(),
            final(self).with_client(old(self), task, None),
    {
        let i: usize = self.slot_of(task);
        let ghost cs = self.clients@;
        if i < MAX_CLIENTS {
            self.clients[i] = None;
            proof {
                assert(self.wf()) by {
                    assert forall|p: int, q: int|
                        #![trigger self.clients@[p], self.clients@[q]]
                        0 <= p < q < 16 && self.clients@[p] is Some && self.clients@[q] is Some
                            implies self.clients@[p]->0.task != self.clients@[q]->0.task by {
                        assert(cs[p] is Some && cs[q] is Some);
                    }
                }
                lemma_freed(cs, self.clients@, i as int, task);
                lemma_count_update(cs, i as int, None, 16);
            }
        }
    }

    /// Address and length of the client's buffer.
    pub fn client_buffer(&self, task: u32) -> (r: Option<(u64, usize)>)
        ensures
            r == match self.client_of(task) {
                None => None,
                Some(c) => match c.map {
                    Some(p) => if c.map_len > 0 {
                        Some((p, c.map_len))
                    } else {
                        None
                    },
                    None => None,
                },
            },
    {
        match self.client(task) {
            None => None,
            Some(c) => match c.map {
                Some(p) => if c.map_len > 0 {
                    Some((p, c.map_len))
                } else {
                    None
                },
                None => None,
            },
        }
    }

    /// Where to send the reply to `req`. A client that never sent its reply
    /// endpoint gets an error rather than silence, so the caller can say so
    /// instead of waiting forever.
    pub fn reply(&self, req: &Request) -> (r: Result<Cap, Error>)
        ensures
            r == match self.client_of(req.client) {
                None => Err(Error::Inval),
                Some(c) => match c.reply {
                    None => Err(Error::Inval),
                    Some(e) => Ok(e),
                },
            },
    {
        match self.client(req.client) {
            None => Err(Error::Inval),
            Some(c) => match c.reply {
                None => Err(Error::Inval),
                Some(e) => Ok(e),
            },
        }
    }

    /// The message that answers a request with a status and nothing else: the
    /// client sees in its own reply what went wrong. There is none if the client
    /// cannot be reached.
    pub fn error(&self, req: &Request, status: u64) -> (r: Option<Call>)
        ensures
            r == match self.client_of(req.client) {
                Some(Client { reply: Some(e), .. }) => Some(
                    Call { nr: SYS_SEND, a0: e.0 as u64, a1: status, a2: 0, a3: 0 },
                ),
                _ => None,
            },
    {
        match self.reply(req) {
            Ok(e) => Some(calls::send(e, status, 0, 0)),
            Err(_) => None,
        }
    }
}

fn clamp_pages(pages: u64) -> (r: u64)
    ensures
        r == clamped(pages),
{
    if pages < 1 {
        1
    } else if pages > 4096 {
        4096
    } else {
        pages
    }
}

/// Position in the table, counted round and round.
pub open spec fn wrap(k: int) -> int {
    k % 16
}

proof fn lemma_slot(cs: Seq<Option<Client>>, task: u32, i: int)
    requires
        0 <= i <= cs.len(),
    ensures
        i <= slot_from(cs, task, i) <= cs.len(),
        slot_from(cs, task, i) < cs.len() ==> cs[slot_from(cs, task, i)] is Some && cs[slot_from(
            cs,
            task,
            i,
        )]->0.task == task,
        forall|k: int|
            i <= k < slot_from(cs, task, i) ==> !((#[trigger] cs[k]) is Some && cs[k]->0.task == task),
    decreases cs.len() - i,
{
    if i < cs.len() && !(cs[i] is Some && cs[i]->0.task == task) {
        lemma_slot(cs, task, i + 1);
    }
}

/// The slot of a task is the one that belongs to it.
proof fn lemma_slot_is(cs: Seq<Option<Client>>, task: u32, at: int)
    requires
        0 <= at < cs.len(),
        cs[at] is Some,
        cs[at]->0.task == task,
        forall|k: int|
            0 <= k < cs.len() && k != at ==> !((#[trigger] cs[k]) is Some && cs[k]->0.task == task),
    ensures
        slot_from(cs, task, 0) == at,
{
    lemma_slot(cs, task, 0);
    let s = slot_from(cs, task, 0);
    assert(s <= at);
}

/// Writing a slot of a table that has no other slot for the same task.
proof fn lemma_taken(
    cs: Seq<Option<Client>>,
    ds: Seq<Option<Client>>,
    at: int,
    task: u32,
    c: Client,
)
    requires
        cs.len() == 16,
        0 <= at < 16,
        ds == cs.update(at, Some(c)),
        c.task == task,
        cs[at] is Some ==> cs[at]->0.task == task,
        slot_from(cs, task, 0) == at || (slot_from(cs, task, 0) == 16 && cs[at] is None),
        forall|i: int, j: int|
            #![trigger cs[i], cs[j]]
            0 <= i < j < 16 && cs[i] is Some && cs[j] is Some ==> cs[i]->0.task != cs[j]->0.task,
    ensures
        slot_from(ds, task, 0) == at,
        forall|t: u32|
            t != task ==> (#[trigger] slot_from(ds, t, 0) == slot_from(cs, t, 0)) && (slot_from(cs, t, 0)
                < 16 ==> ds[slot_from(ds, t, 0)] == cs[slot_from(cs, t, 0)]),
{
    lemma_slot(cs, task, 0);
    assert forall|k: int| 0 <= k < 16 && k != at implies !((#[trigger] ds[k]) is Some && ds[k]->0.task
        == task) by {
        assert(cs[k] == ds[k]);
        if k > at {
            assert(cs[at] == cs[at]);
        }
    }
    lemma_slot_is(ds, task, at);
    assert forall|t: u32| t != task implies (#[trigger] slot_from(ds, t, 0) == slot_from(cs, t, 0)) && (
    slot_from(cs, t, 0) < 16 ==> ds[slot_from(ds, t, 0)] == cs[slot_from(cs, t, 0)]) by {
        lemma_slot(cs, t, 0);
        lemma_slot(ds, t, 0);
        let a = slot_from(cs, t, 0);
        let b = slot_from(ds, t, 0);
        if a < 16 {
            assert(ds[a] == cs[a]);
        }
        if b < 16 {
            assert(cs[b] == ds[b]);
        }
    }
}

/// Emptying the slot of a task.
proof fn lemma_freed(cs: Seq<Option<Client>>, ds: Seq<Option<Client>>, at: int, task: u32)
    requires
        cs.len() == 16,
        0 <= at < 16,
        ds == cs.update(at, None),
        slot_from(cs, task, 0) == at,
        forall|i: int, j: int|
            #![trigger cs[i], cs[j]]
            0 <= i < j < 16 && cs[i] is Some && cs[j] is Some ==> cs[i]->0.task != cs[j]->0.task,
    ensures
        slot_from(ds, task, 0) == 16,
        forall|t: u32|
            t != task ==> (#[trigger] slot_from(ds, t, 0) == slot_from(cs, t, 0)) && (slot_from(cs, t, 0)
                < 16 ==> ds[slot_from(ds, t, 0)] == cs[slot_from(cs, t, 0)]),
{
    lemma_slot(cs, task, 0);
    lemma_slot(ds, task, 0);
    let s = slot_from(ds, task, 0);
    if s < 16 {
        assert(cs[s] == ds[s]);
        assert(cs[at] == cs[at]);
    }
    assert forall|t: u32| t != task implies (#[trigger] slot_from(ds, t, 0) == slot_from(cs, t, 0)) && (
    slot_from(cs, t, 0) < 16 ==> ds[slot_from(ds, t, 0)] == cs[slot_from(cs, t, 0)]) by {
        lemma_slot(cs, t, 0);
        lemma_slot(ds, t, 0);
        let a = slot_from(cs, t, 0);
        let b = slot_from(ds, t, 0);
        if a < 16 {
            assert(ds[a] == cs[a]);
        }
        if b < 16 {
            assert(cs[b] == ds[b]);
        }
    }
}

proof fn lemma_count_update(cs: Seq<Option<Client>>, at: int, v: Option<Client>, n: int)
    requires
        0 <= at < cs.len(),
        n <= cs.len(),
    ensures
        used(cs.update(at, v), n) == used(cs, n) + if at < n {
            (if v is Some {
                1int
            } else {
                0
            }) - (if cs[at] is Some {
                1int
            } else {
                0
            })
        } else {
            0
        },
    decreases n,
{
    if n > 0 {
        lemma_count_update(cs, at, v, n - 1);
    }
}

proof fn lemma_none_used(cs: Seq<Option<Client>>, n: int)
    requires
        n <= cs.len(),
        forall|i: int| 0 <= i < cs.len() ==> (#[trigger] cs[i]) is None,
    ensures
        used(cs, n) == 0,
    decreases n,
{
    if n > 0 {
        lemma_none_used(cs, n - 1);
    }
}

proof fn lemma_all_used(cs: Seq<Option<Client>>, n: int)
    requires
        0 <= n <= cs.len(),
        forall|i: int| 0 <= i < cs.len() ==> (#[trigger] cs[i]) is Some,
    ensures
        used(cs, n) == n,
    decreases n,
{
    if n > 0 {
        lemma_all_used(cs, n - 1);
    }
}

proof fn lemma_used_bounds(cs: Seq<Option<Client>>, n: int)
    requires
        0 <= n <= cs.len(),
    ensures
        0 <= used(cs, n) <= n,
    decreases n,
{
    if n > 0 {
        lemma_used_bounds(cs, n - 1);
    }
}

/// A table with a free slot is not full.
proof fn lemma_used_full(cs: Seq<Option<Client>>, n: int, at: int)
    requires
        0 <= at < n <= cs.len(),
        cs[at] is None,
    ensures
        used(cs, n) < n,
    decreases n,
{
    lemma_used_bounds(cs, n - 1);
    if at < n - 1 {
        lemma_used_full(cs, n - 1, at);
    }
}

/// A client is only ever replied to on the endpoint it handed over itself: what
/// another task connects with changes nothing about it.
pub proof fn lemma_own_endpoint(before: &Server, after: &Server, task: u32, reply: Cap, other: u32)
    requires
        after.with_client(
            before,
            task,
            Some(Client { reply: Some(reply), ..before.client_or_fresh(task) }),
        ),
        other != task,
    ensures
        after.client_of(task) is Some && after.client_of(task)->0.reply == Some(reply),
        after.client_of(other) == before.client_of(other),
{
}

/// The two handshakes are independent: the server knows the same about every task
/// whichever of them comes first.
pub proof fn lemma_either_order(
    s: &Server,
    connected: &Server,
    first: &Server,
    registered: &Server,
    second: &Server,
    task: u32,
    reply: Cap,
    buf: Cap,
    pages: u64,
    mapped: Result<u64, Error>,
    other: u32,
)
    requires
        connected.with_client(s, task, Some(with_reply(s.client_or_fresh(task), reply))),
        first.with_client(
            connected,
            task,
            Some(with_buffer(connected.client_or_fresh(task), buf, pages, mapped)),
        ),
        registered.with_client(s, task, Some(with_buffer(s.client_or_fresh(task), buf, pages, mapped))),
        second.with_client(registered, task, Some(with_reply(registered.client_or_fresh(task), reply))),
    ensures
        first.client_of(other) == second.client_of(other),
        first.connected() == second.connected(),
        first.client_of(task)->0.reply == Some(reply),
{
    if other != task {
        assert(first.client_of(other) == connected.client_of(other));
        assert(second.client_of(other) == registered.client_of(other));
    }
}

/// A task is known exactly if one of the slots is its own, and what is known of it
/// is what that slot holds.
pub proof fn lemma_known(s: &Server, task: u32, i: int)
    requires
        s.wf(),
    ensures
        0 <= i < 16 && s.clients@[i] is Some && s.clients@[i]->0.task == task ==> s.client_of(task)
            == s.clients@[i],
        s.client_of(task) matches Some(c) ==> c.task == task && s.clients@.contains(Some(c)),
{
    lemma_slot(s.clients@, task, 0);
    if 0 <= i < 16 && s.clients@[i] is Some && s.clients@[i]->0.task == task {
        lemma_slot_is(s.clients@, task, i);
    }
}

/// A buffer is as long as the pages that were registered, between one and 4096 of
/// them. One that cannot be mapped is none.
pub proof fn lemma_buffer_length(c: Client, buf: Cap, pages: u64, at: u64, e: Error)
    ensures
        ({
            let d = with_buffer(c, buf, pages, Ok(at));
            &&& d.map == Some(at)
            &&& d.buf == Some(buf)
            &&& d.reply == c.reply
            &&& d.task == c.task
            &&& 1 <= pages <= 4096 ==> d.map_len == pages * 4096
            &&& pages == 0 ==> d.map_len == 4096
            &&& pages > 4096 ==> d.map_len == 4096 * 4096
        }),
        with_buffer(c, buf, pages, Err(e)).map is None,
        with_buffer(c, buf, pages, Err(e)).buf is None,
        with_buffer(c, buf, pages, Err(e)).map_len == 0,
        with_buffer(c, buf, pages, Err(e)).reply == c.reply,
{
}

/// Sixteen clients have room, and a client that is known always has.
pub proof fn lemma_sixteen_clients(s: &Server, task: u32, i: int)
    requires
        s.wf(),
    ensures
        0 <= i < 16 && s.clients@[i] is None ==> s.has_room(task),
        (forall|k: int| 0 <= k < 16 ==> (#[trigger] s.clients@[k]) is Some && s.clients@[k]->0.task != task)
            ==> !s.has_room(task),
        s.client_of(task) is Some ==> s.has_room(task),
{
    lemma_slot(s.clients@, task, 0);
    if 0 <= i < 16 && s.clients@[i] is None {
        lemma_used_full(s.clients@, 16, i);
    }
    if forall|k: int| 0 <= k < 16 ==> (#[trigger] s.clients@[k]) is Some && s.clients@[k]->0.task != task {
        lemma_all_used(s.clients@, 16);
    }
}

} // verus!
