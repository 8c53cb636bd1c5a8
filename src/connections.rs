use vstd::prelude::*;

use crate::login::ConnectionError;
use crate::messages::{Message, Messages, StoreView, add_to, removed};
use crate::typing::{Typing, TypingView, insert_typing};

verus! {

/// A resolved server endpoint: an IP address (an IPv4 one in its low 32
/// bits) and a port.
#[derive(Clone, Copy, Debug, PartialEq, Eq, Hash, Structural)]
pub struct ServerAddr {
    pub ip: u128,
    pub v6: bool,
    pub port: u16,
}

/// A packet from the server, as far as the session's state depends on it.
#[derive(Clone, Debug, PartialEq, Eq)]
pub enum Incoming {
    /// A message was posted or edited.
    MessageReceive(Message),
    /// The message with this id was deleted.
    MessageDelete(usize),
    /// `author` is typing in `channel`.
    Typing { author: usize, channel: usize },
    /// Anything else.
    Other,
}

/// One authenticated session with one server. `T` is the transport, which
/// the session carries and never looks into.
pub struct Synac<T> {
    pub addr: ServerAddr,
    pub link: T,
    pub current_channel: Option<usize>,
    pub messages: Messages,
    pub typing: Typing,
    pub user: usize,
}

impl<T> Synac<T> {
    /// A fresh session of `user` on `addr`: no channel chosen, no message,
    /// nobody typing.
    pub fn new(addr: ServerAddr, link: T, user: usize) -> (r: Self)
        ensures
            r.addr == addr,
            r.link == link,
            r.user == user,
            r.current_channel is None,
            r.messages@ == StoreView::empty(),
            r.typing@ == TypingView::empty(),
    {
        Synac {
            addr,
            link,
            current_channel: None,
            messages: Messages::new(),
            typing: Typing::new(),
            user,
        }
    }

    /// Applies a packet that arrived at time `now` and gives the channel it
    /// changed: a received message is stored, a deleted one removed, and a
    /// typing notification from another user noted.
    pub fn apply(&mut self, packet: Incoming, now: u64) -> (r: Option<usize>)
        ensures
            final(self).addr == old(self).addr,
            final(self).link == old(self).link,
            final(self).user == old(self).user,
            final(self).current_channel == old(self).current_channel,
            match packet {
                Incoming::MessageReceive(m) => {
                    &&& r == Some(m.channel)
                    &&& final(self).messages@ == add_to(old(self).messages@, m)
                    &&& final(self).typing@ == old(self).typing@
                },
                Incoming::MessageDelete(id) => {
                    &&& removed(old(self).messages@, id, r, final(self).messages@)
                    &&& final(self).typing@ == old(self).typing@
                },
                Incoming::Typing { author, channel } => {
                    &&& final(self).messages@ == old(self).messages@
                    &&& if author != old(self).user {
                        &&& r == Some(channel)
                        &&& final(self).typing@ == insert_typing(
                            old(self).typing@,
                            author,
                            channel,
                            now,
                        )
                    } else {
                        &&& r is None
                        &&& final(self).typing@ == old(self).typing@
                    }
                },
                Incoming::Other => {
                    &&& r is None
                    &&& final(self).messages@ == old(self).messages@
                    &&& final(self).typing@ == old(self).typing@
                },
            },
    {
        match packet {
            Incoming::MessageReceive(m) => {
                let channel = m.channel;
                self.messages.add(m);
                Some(channel)
            },
            Incoming::MessageDelete(id) => self.messages.remove(id),
            Incoming::Typing { author, channel } => {
                if author != self.user {
                    self.typing.insert(author, channel, now);
                    Some(channel)
                } else {
                    None
                }
            },
            Incoming::Other => None,
        }
    }
}

/// A connection to one server: a dial still running in the background,
/// held by its handle `H`, or its outcome.
pub enum Connection<T, H> {
    Connecting(H),
    Connected(Result<Synac<T>, ConnectionError>),
}

impl<T, H> Connection<T, H> {
    /// Resolves a pending connection with what `finish` makes of its handle,
    /// waiting for the dial where `finish` does; a resolved connection stays
    /// as it is and `finish` is not called.
    pub fn join<F: FnOnce(H) -> Result<Synac<T>, ConnectionError>>(&mut self, finish: F)
        requires
            forall|h: H| finish.requires((h,)),
        ensures
            match *old(self) {
                Connection::Connecting(h) => exists|r: Result<Synac<T>, ConnectionError>|
                    finish.ensures((h,), r) && *final(self) == Connection::<T, H>::Connected(r),
                Connection::Connected(_) => *final(self) == *old(self),
            },
            final(self).is_resolved(),
    {
        if let Connection::Connecting(_) = self {
            let mut prev = Connection::Connected(Err(ConnectionError::InvalidToken));
            std::mem::swap(&mut prev, self);
            match prev {
                Connection::Connecting(h) => {
                    let r = finish(h);
                    *self = Connection::Connected(r);
                },
                Connection::Connected(r) => {
                    *self = Connection::Connected(r);
                },
            }
        }
    }

    pub open spec fn is_resolved(&self) -> bool {
        self is Connected
    }

    /// Whether the dial has finished and its outcome is stored.
    pub fn resolved(&self) -> (r: bool)
        ensures
            r == self.is_resolved(),
    {
        match self {
            Connection::Connecting(_) => false,
            Connection::Connected(_) => true,
        }
    }
}


/// The connections by address, in the order the addresses were first seen.
pub type RegistryView<T, H> = Seq<(ServerAddr, Connection<T, H>)>;

pub open spec fn registry_wf<T, H>(v: RegistryView<T, H>) -> bool {
    forall|i: int, j: int| 0 <= i < j < v.len() ==> v[i].0 != v[j].0
}

pub open spec fn has_addr<T, H>(v: RegistryView<T, H>, a: ServerAddr) -> bool {
    exists|i: int| 0 <= i < v.len() && v[i].0 == a
}

pub open spec fn addr_position<T, H>(v: RegistryView<T, H>, a: ServerAddr) -> int {
    choose|i: int| 0 <= i < v.len() && v[i].0 == a
}

/// The registry with `c` stored for `a`, in place of what was there.
pub open spec fn put<T, H>(v: RegistryView<T, H>, a: ServerAddr, c: Connection<T, H>) -> RegistryView<
    T,
    H,
> {
    if has_addr(v, a) {
        v.update(addr_position(v, a), (a, c))
    } else {
        v.push((a, c))
    }
}

/// The registry without an entry for `a`.
pub open spec fn without<T, H>(v: RegistryView<T, H>, a: ServerAddr) -> RegistryView<T, H> {
    if has_addr(v, a) {
        v.remove(addr_position(v, a))
    } else {
        v
    }
}

pub open spec fn is_live<T, H>(c: Connection<T, H>) -> bool {
    c matches Connection::Connected(Ok(_))
}

/// The positions of the sessions that are up, in order.
pub open spec fn live_positions<T, H>(v: RegistryView<T, H>) -> Seq<usize>
    decreases v.len(),
{
    if v.len() == 0 {
        Seq::empty()
    } else {
        let rest = live_positions(v.drop_last());
        if is_live(v.last().1) {
            rest.push((v.len() - 1) as usize)
        } else {
            rest
        }
    }
}

/// Connections by address, with no invariant of their own.
struct Table<T, H> {
    addrs: Vec<ServerAddr>,
    conns: Vec<Connection<T, H>>,
}

impl<T, H> View for Table<T, H> {
    type V = RegistryView<T, H>;

    closed spec fn view(&self) -> RegistryView<T, H> {
        Seq::new(self.addrs@.len(), |i: int| (self.addrs@[i], self.conns@[i]))
    }
}

impl<T, H> Table<T, H> {
    spec fn wf(&self) -> bool {
        &&& self.addrs.len() == self.conns.len()
        &&& registry_wf(self@)
    }

    /// A registry of no server, with none chosen.
    fn new() -> (r: Self)
        ensures
            r.wf(),
            r@ == RegistryView::<T, H>::empty(),
    {
        let r = Table { addrs: Vec::new(), conns: Vec::new() };
        assert(r@ =~= RegistryView::<T, H>::empty());
        r
    }

    /// The position of `addr`, if it has an entry.
    fn find(&self, addr: ServerAddr) -> (r: Option<usize>)
        requires
            self.wf(),
        ensures
            r is None ==> !has_addr(self@, addr),
            r matches Some(i) ==> i < self@.len() && addr_position(self@, addr) == i
                && self@[i as int].0 == addr,
    {
        let mut i: usize = 0;
        while i < self.addrs.len()
            invariant
                0 <= i <= self.addrs.len(),
                self.wf(),
                forall|k: int| 0 <= k < i ==> self.addrs@[k] != addr,
            decreases self.addrs.len() - i,
        {
            if self.addrs[i] == addr {
                proof {
                    let p = addr_position(self@, addr);
                    assert(self@[i as int].0 == addr);
                    assert(self@[p].0 == addr);
                }
                return Some(i);
            }
            i = i + 1;
        }
        proof {
            assert forall|k: int| 0 <= k < self@.len() implies self@[k].0 != addr by {
                assert(self@[k].0 == self.addrs@[k]);
            }
        }
        None
    }

    fn put_connection(&mut self, addr: ServerAddr, c: Connection<T, H>)
        requires
            old(self).wf(),
        ensures
            final(self).wf(),
            final(self)@ == put(old(self)@, addr, c),
    {
        let ghost v0 = self@;
        match self.find(addr) {
            Some(i) => {
                self.conns.set(i, c);
                proof {
                    assert(self@ =~= v0.update(i as int, (addr, c)));
                }
            },
            None => {
                self.addrs.push(addr);
                self.conns.push(c);
                proof {
                    assert(self@ =~= v0.push((addr, c)));
                }
            },
        }
    }

    /// Drops the entry for `addr`, if any.
    fn remove(&mut self, addr: ServerAddr)
        requires
            old(self).wf(),
        ensures
            final(self).wf(),
            final(self)@ == without(old(self)@, addr),
    {
        let ghost v0 = self@;
        match self.find(addr) {
            Some(i) => {
                let _a = self.addrs.remove(i);
                let _c = self.conns.remove(i);
                proof {
                    assert(self@ =~= v0.remove(i as int));
                    assert forall|a: int, b: int| 0 <= a < b < self@.len() implies self@[a].0
                        != self@[b].0 by {
                        let a2 = if a < i { a } else { a + 1 };
                        let b2 = if b < i { b } else { b + 1 };
                        assert(self@[a] == v0[a2] && self@[b] == v0[b2]);
                    }
                }
            },
            None => {},
        }
    }

    /// The number of entries.
    fn len(&self) -> (r: usize)
        requires
            self.wf(),
        ensures
            r == self@.len(),
    {
        self.addrs.len()
    }

    /// The address of the entry at `i`.
    fn address_at(&self, i: usize) -> (r: ServerAddr)
        requires
            self.wf(),
            i < self@.len(),
        ensures
            r == self@[i as int].0,
    {
        self.addrs[i]
    }

    /// Puts `c` at position `i`, under the same address, and gives back the
    /// connection that was there.
    fn replace_at(&mut self, i: usize, c: Connection<T, H>) -> (r: Connection<T, H>)
        requires
            old(self).wf(),
            i < old(self)@.len(),
        ensures
            r == old(self)@[i as int].1,
            final(self).wf(),
            final(self)@ == old(self)@.update(i as int, (old(self)@[i as int].0, c)),
    {
        let ghost v0 = self@;
        let mut c = c;
        let ghost c0 = c;
        self.conns.set_and_swap(i, &mut c);
        proof {
            assert(self@ =~= v0.update(i as int, (v0[i as int].0, c0)));
            assert forall|a: int, b: int| 0 <= a < b < self@.len() implies self@[a].0
                != self@[b].0 by {
                assert(self@[a].0 == v0[a].0 && self@[b].0 == v0[b].0);
            }
        }
        c
    }

    /// The positions of the sessions that are up, in order: those a
    /// broadcast or a poll visits.
    fn live_indices(&self) -> (r: Vec<usize>)
        requires
            self.wf(),
        ensures
            r@ == live_positions(self@),
    {
        let mut r: Vec<usize> = Vec::new();
        let mut i: usize = 0;
        while i < self.conns.len()
            invariant
                0 <= i <= self.conns.len(),
                self.wf(),
                r@ == live_positions(self@.take(i as int)),
            decreases self.conns.len() - i,
        {
            proof {
                assert(self@.take(i + 1).drop_last() =~= self@.take(i as int));
            }
            match &self.conns[i] {
                Connection::Connected(Ok(_)) => {
                    r.push(i);
                },
                _ => {},
            }
            i = i + 1;
        }
        assert(self@.take(i as int) =~= self@);
        r
    }
}

/// Every connection of the client, by server address, and the server the
/// user is looking at.
pub struct Connections<T, H> {
    current_server: Option<ServerAddr>,
    table: Table<T, H>,
}

impl<T, H> View for Connections<T, H> {
    type V = RegistryView<T, H>;

    closed spec fn view(&self) -> RegistryView<T, H> {
        self.table@
    }
}

impl<T, H> Connections<T, H> {
    #[verifier::type_invariant]
    spec fn inv(&self) -> bool {
        self.table.wf()
    }

    /// The server the user is looking at, if any.
    pub closed spec fn selected(&self) -> Option<ServerAddr> {
        self.current_server
    }

    /// A registry of no server, with none chosen.
    pub fn new() -> (r: Self)
        ensures
            r@ == RegistryView::<T, H>::empty(),
            r.selected() is None,
    {
        Connections { current_server: None, table: Table::new() }
    }

    /// The server the user is looking at, if any; it may have left the registry.
    pub fn current_server(&self) -> (r: Option<ServerAddr>)
        ensures
            r == self.selected(),
    {
        self.current_server
    }

    /// Chooses the server the user is looking at, or none.
    pub fn set_current(&mut self, addr: Option<ServerAddr>)
        ensures
            final(self)@ == old(self)@,
            final(self).selected() == addr,
    {
        proof {
            use_type_invariant(&*self);
        }
        self.current_server = addr;
    }

    /// The position of `addr`, if it has an entry.
    pub fn find(&self, addr: ServerAddr) -> (r: Option<usize>)
        ensures
            r is None ==> !has_addr(self@, addr),
            r matches Some(i) ==> i < self@.len() && addr_position(self@, addr) == i
                && self@[i as int].0 == addr,
    {
        proof {
            use_type_invariant(self);
        }
        self.table.find(addr)
    }

    /// Registers an authenticated session for `addr`, replacing any entry.
    pub fn insert(&mut self, addr: ServerAddr, result: Synac<T>)
        ensures
            final(self)@ == put(old(self)@, addr, Connection::<T, H>::Connected(Ok(result))),
            final(self).selected() == old(self).selected(),
    {
        proof {
            use_type_invariant(&*self);
        }
        let mut t = Table::new();
        std::mem::swap(&mut t, &mut self.table);
        t.put_connection(addr, Connection::Connected(Ok(result)));
        self.table = t;
    }

    /// Registers a dial running in the background for `addr`, replacing any
    /// entry.
    pub fn insert_pending(&mut self, addr: ServerAddr, handle: H)
        ensures
            final(self)@ == put(old(self)@, addr, Connection::<T, H>::Connecting(handle)),
            final(self).selected() == old(self).selected(),
    {
        proof {
            use_type_invariant(&*self);
        }
        let mut t = Table::new();
        std::mem::swap(&mut t, &mut self.table);
        t.put_connection(addr, Connection::Connecting(handle));
        self.table = t;
    }

    /// Drops the entry for `addr`, if any; a dial still running for it goes
    /// on, unseen.
    pub fn remove(&mut self, addr: ServerAddr)
        ensures
            final(self)@ == without(old(self)@, addr),
            final(self).selected() == old(self).selected(),
    {
        proof {
            use_type_invariant(&*self);
        }
        let mut t = Table::new();
        std::mem::swap(&mut t, &mut self.table);
        t.remove(addr);
        self.table = t;
    }

    /// The number of entries.
    pub fn len(&self) -> (r: usize)
        ensures
            r == self@.len(),
    {
        proof {
            use_type_invariant(self);
        }
        self.table.len()
    }

    /// The address of the entry at `i`.
    pub fn address_at(&self, i: usize) -> (r: ServerAddr)
        requires
            i < self@.len(),
        ensures
            r == self@[i as int].0,
    {
        proof {
            use_type_invariant(self);
        }
        self.table.address_at(i)
    }

    /// Puts `c` at position `i`, under the same address, and gives back the
    /// connection that was there.
    pub fn replace_at(&mut self, i: usize, c: Connection<T, H>) -> (r: Connection<T, H>)
        requires
            i < old(self)@.len(),
        ensures
            r == old(self)@[i as int].1,
            final(self)@ == old(self)@.update(i as int, (old(self)@[i as int].0, c)),
            final(self).selected() == old(self).selected(),
    {
        proof {
            use_type_invariant(&*self);
        }
        let mut t = Table::new();
        std::mem::swap(&mut t, &mut self.table);
        let r = t.replace_at(i, c);
        self.table = t;
        r
    }

    /// The positions of the sessions that are up, in order: those a
    /// broadcast or a poll visits.
    pub fn live_indices(&self) -> (r: Vec<usize>)
        ensures
            r@ == live_positions(self@),
    {
        proof {
            use_type_invariant(self);
        }
        self.table.live_indices()
    }
}

} // verus!
