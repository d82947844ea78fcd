//! The bridge of a server between its clients and WireGuard.
//!
//! Every client has a local socket of its own, so that WireGuard sees different clients at
//! different addresses and answers each of them there. Clients of whom nothing was heard for long
//! are dropped.

use crate::assoc::{AssocList, Key};
use crate::multilink::WrappedInfo;
use crate::text::{decimal, push_decimal};
use vstd::prelude::*;

verus! {

/// Who sent a packet.
#[derive(Clone, Copy, Debug, PartialEq, Eq, Hash, PartialOrd, Ord, Structural)]
pub enum ClientKey {
    /// A phone without a router.
    Direct,
    /// A client behind a router.
    Routed(u8),
}

/// A client as text.
pub open spec fn client_text(key: ClientKey) -> Seq<char> {
    match key {
        ClientKey::Direct => "прямой"@,
        ClientKey::Routed(client_id) => decimal(client_id as nat),
    }
}

impl ClientKey {
    /// The client as text.
    pub fn text(&self) -> (text: String)
        ensures
            text@ == client_text(*self),
    {
        match self {
            ClientKey::Direct => "прямой".to_owned(),
            ClientKey::Routed(client_id) => {
                let mut text: String = String::new();
                push_decimal(&mut text, *client_id as u64);
                assert(text@ =~= client_text(*self));
                text
            },
        }
    }

    /// Who a packet is of: it is wrapped for a client behind a router, or plain.
    pub fn of_packet(wrapped: Option<WrappedInfo>) -> (key: ClientKey)
        ensures
            key == match wrapped {
                Some(w) => ClientKey::Routed(w.client_id),
                None => ClientKey::Direct,
            },
    {
        match wrapped {
            Some(wrapped) => ClientKey::Routed(wrapped.client_id),
            None => ClientKey::Direct,
        }
    }
}

impl View for ClientKey {
    type V = ClientKey;

    open spec fn view(&self) -> ClientKey {
        *self
    }
}

impl Key for ClientKey {
    fn same_key(&self, other: &ClientKey) -> (same: bool) {
        *self == *other
    }
}

proof fn lemma_one_more(s: Seq<ClientKey>, n: int)
    requires
        0 <= n < s.len(),
    ensures
        forall|c: ClientKey| #[trigger]
            s.take(n + 1).contains(c) <==> s.take(n).contains(c) || c == s[n],
{
    let (shorter, longer) = (s.take(n), s.take(n + 1));
    assert forall|c: ClientKey| #[trigger] longer.contains(c) <==> shorter.contains(c) || c
        == s[n] by {
        if longer.contains(c) {
            let k = choose|k: int| 0 <= k < longer.len() && longer[k] == c;
            if k < n {
                assert(shorter[k] == c);
            }
        }
        if shorter.contains(c) {
            let k = choose|k: int| 0 <= k < shorter.len() && shorter[k] == c;
            assert(longer[k] == c);
        }
        if c == s[n] {
            assert(longer[n] == c);
        }
    }
}

/// The clients: a socket for each, and when anything was heard of them last, in nanoseconds.
pub struct Clients<S> {
    sockets: AssocList<ClientKey, S>,
    active: AssocList<ClientKey, u64>,
    inactive_timeout: u64,
}

/// How long nothing was heard of a client.
pub open spec fn silence(last: u64, now: u64) -> int {
    if now >= last {
        now - last
    } else {
        0
    }
}

impl<S> Clients<S> {
    /// The socket of each client.
    pub closed spec fn sockets(&self) -> Map<ClientKey, S> {
        self.sockets@
    }

    /// When anything was heard of each client last.
    pub closed spec fn active(&self) -> Map<ClientKey, u64> {
        self.active@
    }

    /// After which silence a client is dropped.
    pub closed spec fn timeout(&self) -> u64 {
        self.inactive_timeout
    }

    /// Something was heard of every client that has a socket, and of no other.
    pub open spec fn wf(&self) -> bool {
        self.sockets().dom() == self.active().dom()
    }

    pub fn new(inactive_timeout: u64) -> (clients: Self)
        ensures
            clients.wf(),
            clients.sockets() == Map::<ClientKey, S>::empty(),
            clients.active() == Map::<ClientKey, u64>::empty(),
            clients.timeout() == inactive_timeout,
    {
        let clients = Clients {
            sockets: AssocList::new(),
            active: AssocList::new(),
            inactive_timeout,
        };
        assert(clients.sockets().dom() =~= clients.active().dom());
        clients
    }

    pub fn client_count(&self) -> (count: usize)
        ensures
            self.sockets().dom().finite(),
            count == self.sockets().dom().len(),
    {
        self.sockets.len()
    }

    /// The socket of a client, if it has one; the client was heard of.
    pub fn touch(&mut self, client: ClientKey, now: u64) -> (socket: Option<&S>)
        requires
            old(self).wf(),
        ensures
            final(self).wf(),
            final(self).sockets() == old(self).sockets(),
            final(self).timeout() == old(self).timeout(),
            final(self).active() == if old(self).sockets().contains_key(client) {
                old(self).active().insert(client, now)
            } else {
                old(self).active()
            },
            socket is Some <==> old(self).sockets().contains_key(client),
            socket matches Some(s) ==> *s == old(self).sockets()[client],
    {
        if self.sockets.contains(&client) {
            self.active.insert(client, now);
            assert(self.sockets().dom() =~= self.active().dom());
        }
        self.sockets.get(&client)
    }

    /// The socket of a client, if it has one.
    pub fn socket(&self, client: ClientKey) -> (socket: Option<&S>)
        ensures
            socket is Some <==> self.sockets().contains_key(client),
            socket matches Some(s) ==> *s == self.sockets()[client],
    {
        self.sockets.get(&client)
    }

    /// A socket was made for a client that had none. If it has got one meanwhile, that one stays
    /// and the new one is dropped; whether the client is new.
    pub fn insert(&mut self, client: ClientKey, socket: S, now: u64) -> (new: bool)
        requires
            old(self).wf(),
        ensures
            final(self).wf(),
            final(self).timeout() == old(self).timeout(),
            new == !old(self).sockets().contains_key(client),
            final(self).sockets() == if old(self).sockets().contains_key(client) {
                old(self).sockets()
            } else {
                old(self).sockets().insert(client, socket)
            },
            final(self).active() == if old(self).sockets().contains_key(client) {
                old(self).active()
            } else {
                old(self).active().insert(client, now)
            },
    {
        if self.sockets.contains(&client) {
            return false;
        }
        self.sockets.insert(client, socket);
        self.active.insert(client, now);
        assert(self.sockets().dom() =~= self.active().dom());
        true
    }

    /// The client is to be dropped.
    pub open spec fn stale(&self, client: ClientKey, now: u64) -> bool {
        self.active().contains_key(client) && silence(self.active()[client], now) > self.timeout()
    }

    /// Drops the clients of whom nothing was heard for longer than the timeout, and tells which.
    pub fn cleanup(&mut self, now: u64) -> (dropped: Vec<ClientKey>)
        requires
            old(self).wf(),
        ensures
            final(self).wf(),
            final(self).timeout() == old(self).timeout(),
            dropped@.no_duplicates(),
            forall|c: ClientKey| #[trigger] dropped@.contains(c) <==> old(self).stale(c, now),
            forall|c: ClientKey| #[trigger]
                final(self).sockets().contains_key(c) <==> old(self).sockets().contains_key(c)
                    && !old(self).stale(c, now),
            forall|c: ClientKey| #[trigger]
                final(self).sockets().contains_key(c) ==> final(self).sockets()[c] == old(
                    self,
                ).sockets()[c] && final(self).active()[c] == old(self).active()[c],
    {
        let count: usize = self.active.len();
        let ghost keys = self.active.keys();
        let mut dropped: Vec<ClientKey> = Vec::new();
        let mut i: usize = 0;
        while i < count
            invariant
                self.sockets() == old(self).sockets(),
                self.active == old(self).active,
                self.timeout() == old(self).timeout(),
                i <= count == keys.len(),
                keys == self.active.keys(),
                keys.no_duplicates(),
                keys.to_set() == self.active().dom(),
                dropped@.no_duplicates(),
                forall|c: ClientKey| #[trigger]
                    dropped@.contains(c) <==> old(self).stale(c, now) && keys.take(
                        i as int,
                    ).contains(c),
            decreases count - i,
        {
            let client: ClientKey = self.active.key_at(i);
            let ghost before = dropped@;
            proof {
                assert(keys.contains(keys[i as int]));
                assert(keys.to_set().contains(client));
                assert(!keys.take(i as int).contains(client)) by {
                    let listed = keys.take(i as int);
                    if listed.contains(client) {
                        let k = choose|k: int| 0 <= k < listed.len() && listed[k] == client;
                        assert(keys[k] == keys[i as int]);
                    }
                }
                lemma_one_more(keys, i as int);
            }
            let last: u64 = match self.active.get(&client) {
                Some(last) => *last,
                None => now,
            };
            if now.saturating_sub(last) > self.inactive_timeout {
                dropped.push(client);
                proof {
                    lemma_one_more(dropped@, before.len() as int);
                    assert(dropped@.take(before.len() as int) =~= before);
                    assert(dropped@.take(before.len() as int + 1) =~= dropped@);
                    assert(dropped@.no_duplicates()) by {
                        assert forall|j: int, k: int|
                            0 <= j < k < dropped@.len() implies dropped@[j] != dropped@[k] by {
                            if k == before.len() {
                                assert(before.contains(before[j]));
                            }
                        }
                    }
                }
            }
            i += 1;
        }
        proof {
            assert(keys.take(count as int) =~= keys);
            assert forall|c: ClientKey| #[trigger] dropped@.contains(c) <==> old(self).stale(
                c,
                now,
            ) by {
                if old(self).stale(c, now) {
                    assert(keys.to_set().contains(c));
                }
            }
        }
        let mut k: usize = 0;
        while k < dropped.len()
            invariant
                old(self).wf(),
                self.wf(),
                self.timeout() == old(self).timeout(),
                k <= dropped@.len(),
                forall|c: ClientKey| #[trigger]
                    self.sockets().contains_key(c) <==> old(self).sockets().contains_key(c)
                        && !dropped@.take(k as int).contains(c),
                forall|c: ClientKey| #[trigger]
                    self.sockets().contains_key(c) ==> self.sockets()[c] == old(self).sockets()[c]
                        && self.active()[c] == old(self).active()[c],
            decreases dropped@.len() - k,
        {
            let ghost before = *self;
            let client: ClientKey = dropped[k];
            self.sockets.remove(&client);
            self.active.remove(&client);
            proof {
                assert(self.sockets().dom() =~= self.active().dom());
                lemma_one_more(dropped@, k as int);
            }
            k += 1;
        }
        assert(dropped@.take(dropped@.len() as int) =~= dropped@);
        dropped
    }
}

/// A client is dropped exactly if nothing was heard of it for longer than the timeout; everyone
/// else keeps the socket.
pub proof fn law_silent_clients_are_dropped<S>(now: u64, client: ClientKey)
    ensures
        forall|c: &mut Clients<S>, dropped: Vec<ClientKey>| #[trigger]
            call_ensures(Clients::<S>::cleanup, (c, now), dropped) && (*c).wf() ==> {
                let late = (*c).active().contains_key(client) && now > (*c).active()[client]
                    + (*c).timeout();
                &&& dropped@.contains(client) <==> late
                &&& final(c).sockets().contains_key(client) <==> (*c).sockets().contains_key(client)
                    && !late
                &&& final(c).sockets().contains_key(client) ==> final(c).sockets()[client] == (
                *c).sockets()[client] && final(c).active()[client] == (*c).active()[client]
            },
{
}

/// A new client gets the socket that was made for it, and was heard of right then; a client that
/// has one keeps it. Nobody else is concerned.
pub proof fn law_a_client_has_one_socket<S>(client: ClientKey, socket: S, now: u64, other: ClientKey)
    requires
        other != client,
    ensures
        forall|c: &mut Clients<S>, new: bool| #[trigger]
            call_ensures(Clients::<S>::insert, (c, client, socket, now), new) && (*c).wf() ==> {
                &&& new <==> !(*c).sockets().contains_key(client)
                &&& final(c).sockets().contains_key(client)
                &&& new ==> final(c).sockets()[client] == socket && final(c).active()[client] == now
                &&& !new ==> final(c).sockets()[client] == (*c).sockets()[client]
                &&& final(c).sockets().contains_key(other) <==> (*c).sockets().contains_key(other)
                &&& final(c).sockets().contains_key(other) ==> final(c).sockets()[other] == (
                *c).sockets()[other] && final(c).active()[other] == (*c).active()[other]
            },
{
    assert forall|c: &mut Clients<S>, new: bool| #[trigger]
        call_ensures(Clients::<S>::insert, (c, client, socket, now), new) && (*c).wf() implies {
        &&& new <==> !(*c).sockets().contains_key(client)
        &&& final(c).sockets().contains_key(client)
        &&& new ==> final(c).sockets()[client] == socket && final(c).active()[client] == now
        &&& !new ==> final(c).sockets()[client] == (*c).sockets()[client]
        &&& final(c).sockets().contains_key(other) <==> (*c).sockets().contains_key(other)
        &&& final(c).sockets().contains_key(other) ==> final(c).sockets()[other] == (
        *c).sockets()[other] && final(c).active()[other] == (*c).active()[other]
    } by {}
}

/// Whoever is heard of is not dropped before the timeout has passed since.
pub proof fn law_a_touched_client_stays<S>(client: ClientKey, now: u64, later: u64)
    ensures
        forall|c: &mut Clients<S>, socket: Option<&S>| #[trigger]
            call_ensures(Clients::<S>::touch, (c, client, now), socket) && (*c).wf() ==> {
                &&& socket is Some <==> (*c).sockets().contains_key(client)
                &&& socket matches Some(s) ==> *s == (*c).sockets()[client]
                &&& final(c).sockets() == (*c).sockets()
                &&& later <= now + final(c).timeout() && socket is Some ==> !final(c).stale(
                    client,
                    later,
                )
            },
{
}

/// A packet that is wrapped is of the client behind the router that it names, a plain one of the
/// peer itself; each client has a key of its own.
pub proof fn law_packets_tell_their_client(wrapped: Option<WrappedInfo>, key: ClientKey)
    requires
        call_ensures(ClientKey::of_packet, (wrapped,), key),
    ensures
        wrapped is None <==> key is Direct,
        wrapped matches Some(w) ==> key == ClientKey::Routed(w.client_id),
{
}

/// A server starts without clients. A client has the socket that is kept for it; the direct one is
/// called so, and the others by their numbers.
pub proof fn law_clients_are_told_apart<S>(
    timeout: u64,
    start: Clients<S>,
    clients: &Clients<S>,
    client: ClientKey,
    socket: Option<&S>,
    count: usize,
    id: u8,
    direct: String,
    routed: String,
)
    requires
        call_ensures(Clients::<S>::new, (timeout,), start),
        call_ensures(Clients::<S>::socket, (clients, client), socket),
        call_ensures(Clients::<S>::client_count, (&start,), count),
        call_ensures(ClientKey::text, (&ClientKey::Direct,), direct),
        call_ensures(ClientKey::text, (&ClientKey::Routed(id),), routed),
    ensures
        count == 0,
        start.timeout() == timeout,
        socket is Some <==> clients.sockets().contains_key(client),
        socket matches Some(s) ==> *s == clients.sockets()[client],
        direct@ == "прямой"@,
        routed@ == decimal(id as nat),
{
    assert(start.sockets().dom() =~= Set::<ClientKey>::empty());
}

} // verus!
