//! The book of tunnel addresses: the server hands them out to clients and remembers who has
//! which.
//!
//! The subnet follows from the server's own address. Routers and hosts get addresses from the
//! first `/24` of a wide subnet, phones from the others; a subnet of `/24` and narrower is one
//! common pool. An address stays with the key of a client and is handed out again when it comes
//! back. The book can be written as text and read again.

use crate::net::{ipv4_in, parse_ipv4};
use crate::subnet::{lemma_two_to, lemma_two_to_monotone, size_of_subnet, subnet_size};
use crate::text::{
    chars, decimal, first_at, lines, lines_of, push_decimal, split_once, trim, trimmed, views,
};
use crate::text_map::{holds, takes, TextMap};
use vstd::prelude::*;
use vstd::string::*;

verus! {

/// Who asks for an address.
#[derive(Clone, Copy, Debug, PartialEq, Eq, Structural)]
pub enum AddressKind {
    /// A router or a host.
    Host,
    Phone,
}

/// The first address of the subnet of `server`.
pub open spec fn network(server: u32, prefix: u8) -> int {
    server - server as nat % subnet_size(prefix)
}

/// The last address of the subnet of `server`.
pub open spec fn broadcast(server: u32, prefix: u8) -> int {
    network(server, prefix) + subnet_size(prefix) - 1
}

/// The address lies in the subnet of `server`.
pub open spec fn in_subnet(server: u32, prefix: u8, a: u32) -> bool {
    network(server, prefix) <= a <= broadcast(server, prefix)
}

/// The first address that is handed out.
pub open spec fn pool_first(server: u32, prefix: u8, kind: AddressKind) -> int {
    if prefix < 24 && kind == AddressKind::Phone {
        network(server, prefix) + 256
    } else {
        network(server, prefix) + 1
    }
}

/// The last address that is handed out.
pub open spec fn pool_last(server: u32, prefix: u8, kind: AddressKind) -> int {
    if prefix < 24 && kind == AddressKind::Host {
        network(server, prefix) + 254
    } else {
        broadcast(server, prefix) - 1
    }
}

/// The address can be handed out: neither the network nor the broadcast address, and in a wide
/// subnet neither the first nor the last one of a `/24`.
pub open spec fn in_pool(server: u32, prefix: u8, kind: AddressKind, a: u32) -> bool {
    &&& pool_first(server, prefix, kind) <= a <= pool_last(server, prefix, kind)
    &&& prefix < 24 ==> a % 256 != 0 && a % 256 != 255
}

/// The address can be handed out, is not the server's, and nobody has it.
pub open spec fn is_free(assigned: Map<Seq<char>, u32>, server: u32, prefix: u8, kind: AddressKind, a: u32) -> bool {
    in_pool(server, prefix, kind, a) && a != server && !takes(assigned, a)
}

/// What a line of the book says.
pub enum BookLine {
    Skip,
    Entry(Seq<char>, u32),
    /// A line without a space between key and address.
    NoAddress(Seq<char>),
    /// What follows the key is no IPv4 address.
    BadAddress(Seq<char>),
}

/// What a line of the book says: a key, a space and an address; empty lines and comments say
/// nothing.
pub open spec fn book_line(raw: Seq<char>) -> BookLine {
    let line = trimmed(raw);
    let n = first_at(line, ' ');
    if line.len() == 0 || line[0] == '#' {
        BookLine::Skip
    } else if n >= line.len() {
        BookLine::NoAddress(line)
    } else {
        match ipv4_in(trimmed(line.skip(n + 1))) {
            Some(a) => BookLine::Entry(line.take(n), a),
            None => BookLine::BadAddress(line),
        }
    }
}

/// Why a book cannot be read.
pub enum BookFault {
    NoAddress(Seq<char>),
    BadAddress(Seq<char>),
}

/// What the lines of a book say; the last line with a key counts, and the first bad line decides.
pub open spec fn book_says(ls: Seq<Seq<char>>) -> Result<Map<Seq<char>, u32>, BookFault>
    decreases ls.len(),
{
    if ls.len() == 0 {
        Ok(Map::empty())
    } else {
        match book_says(ls.drop_last()) {
            Ok(m) => match book_line(ls.last()) {
                BookLine::Skip => Ok(m),
                BookLine::Entry(key, a) => Ok(m.insert(key, a)),
                BookLine::NoAddress(line) => Err(BookFault::NoAddress(line)),
                BookLine::BadAddress(line) => Err(BookFault::BadAddress(line)),
            },
            Err(fault) => Err(fault),
        }
    }
}

proof fn lemma_bad_line(ls: Seq<Seq<char>>, n: int)
    requires
        0 < n <= ls.len(),
        book_says(ls.take(n)) is Err,
    ensures
        book_says(ls) == book_says(ls.take(n)),
    decreases ls.len(),
{
    if n < ls.len() {
        assert(ls.drop_last().take(n) =~= ls.take(n));
        lemma_bad_line(ls.drop_last(), n);
    } else {
        assert(ls.take(n) =~= ls);
    }
}

/// Why there is no book, or no address.
#[derive(Debug)]
pub enum AddressError {
    /// The subnet is wider than `/8` or narrower than `/30`.
    Prefix(u8),
    /// A line of the book without an address.
    NoAddress(String),
    /// A line of the book with something else than an IPv4 address.
    BadAddress(String),
    /// All addresses of the pool are taken.
    Exhausted,
}

/// The book of addresses.
pub struct AddressBook {
    server: u32,
    prefix: u8,
    assigned: TextMap,
}

/// The subnet of an address lies within the addresses there are.
proof fn lemma_subnet(server: u32, prefix: u8)
    requires
        prefix <= 32,
    ensures
        0 <= network(server, prefix) <= server <= broadcast(server, prefix) <= u32::MAX,
{
    let size = subnet_size(prefix);
    lemma_two_to();
    lemma_two_to_monotone((32 - prefix) as nat, 32);
    let n = network(server, prefix);
    let all: nat = 0x1_0000_0000;
    let s = server as nat;
    assert(s % size < size && s % size <= s && (s - s % size) % size as int == 0) by (nonlinear_arith)
        requires
            size >= 1,
    ;
    assert(n + size <= all) by (nonlinear_arith)
        requires
            0 <= n < all,
            n % size as int == 0,
            all % size == 0,
            size >= 1,
    ;
}

impl AddressBook {
    pub closed spec fn server(&self) -> u32 {
        self.server
    }

    pub closed spec fn subnet_prefix(&self) -> u8 {
        self.prefix
    }

    /// The addresses by the key of the client.
    pub closed spec fn assigned(&self) -> Map<Seq<char>, u32> {
        self.assigned@
    }

    /// Keys and addresses in the order in which the keys came.
    pub closed spec fn entries(&self) -> Seq<(Seq<char>, u32)> {
        self.assigned.entries()
    }

    pub closed spec fn wf(&self) -> bool {
        8 <= self.prefix <= 30 && self.assigned.wf()
    }

    /// What the invariant says of the subnet and of the entries.
    pub proof fn lemma_wf(&self)
        requires
            self.wf(),
        ensures
            8 <= self.subnet_prefix() <= 30,
            forall|i: int, j: int|
                0 <= i < j < self.entries().len() ==> (#[trigger] self.entries()[i]).0 != (
                #[trigger] self.entries()[j]).0,
            forall|i: int|
                0 <= i < self.entries().len() ==> holds(
                    self.assigned(),
                    (#[trigger] self.entries()[i]).0,
                    self.entries()[i].1,
                ),
            forall|k: Seq<char>| #[trigger]
                self.assigned().contains_key(k) ==> self.entries().contains((k, self.assigned()[k])),
    {
        self.assigned.lemma_entries();
    }

    /// The book of the server with address `server/prefix`; `saved` is what was written before.
    pub fn load(server: u32, prefix: u8, saved: Option<&str>) -> (book: Result<Self, AddressError>)
        ensures
            book matches Err(AddressError::Prefix(p)) <==> !(8 <= prefix <= 30),
            book matches Err(AddressError::Prefix(p)) ==> p == prefix,
            !(book matches Err(AddressError::Exhausted)),
            book matches Ok(b) ==> b.wf() && b.server() == server && b.subnet_prefix() == prefix,
            8 <= prefix <= 30 ==> match saved {
                Some(text) => match book_says(lines_of(text@)) {
                    Ok(m) => book matches Ok(b) && b.assigned() == m,
                    Err(BookFault::NoAddress(line)) => book matches Err(AddressError::NoAddress(l)) && l@ == line,
                    Err(BookFault::BadAddress(line)) => book matches Err(AddressError::BadAddress(l)) && l@ == line,
                },
                None => book matches Ok(b) && b.assigned() == Map::<Seq<char>, u32>::empty(),
            },
    {
        if prefix < 8 || prefix > 30 {
            return Err(AddressError::Prefix(prefix));
        }
        let mut assigned = TextMap::new();
        if let Some(text) = saved {
            let all: Vec<&str> = lines(text);
            let ghost ls = lines_of(text@);
            let mut i: usize = 0;
            assert(ls.take(0) =~= Seq::<Seq<char>>::empty());
            while i < all.len()
                invariant
                    8 <= prefix <= 30,
                    saved == Some(text),
                    i <= all@.len(),
                    views(all@) == ls,
                    ls == lines_of(text@),
                    assigned.wf(),
                    book_says(ls.take(i as int)) == Ok::<Map<Seq<char>, u32>, BookFault>(assigned@),
                decreases all@.len() - i,
            {
                proof {
                    assert(ls.take(i + 1).drop_last() =~= ls.take(i as int));
                    assert(ls[i as int] == all@[i as int]@);
                    assert(ls.take(i + 1).last() == all@[i as int]@);
                    if book_says(ls.take(i + 1)) is Err {
                        lemma_bad_line(ls, i + 1);
                    }
                }
                let line = trim(all[i]);
                let line_chars: Vec<char> = chars(line);
                if line_chars.len() > 0 && line_chars[0] != '#' {
                    match split_once(line, ' ') {
                        Some((key, address)) => match parse_ipv4(trim(address)) {
                            Some(a) => {
                                assigned.insert(key, a);
                            },
                            None => {
                                return Err(AddressError::BadAddress(line.to_owned()));
                            },
                        },
                        None => {
                            proof {
                                crate::text::lemma_first_at(line@, ' ');
                            }
                            return Err(AddressError::NoAddress(line.to_owned()));
                        },
                    }
                }
                i += 1;
            }
            assert(ls.take(i as int) =~= ls);
        }
        Ok(Self { server, prefix, assigned })
    }

    /// How many clients have addresses.
    pub fn entry_count(&self) -> (n: usize)
        ensures
            n == self.entries().len(),
    {
        self.assigned.len()
    }

    /// The key and the address of a client.
    pub fn entry(&self, i: usize) -> (entry: (&str, u32))
        requires
            i < self.entries().len(),
        ensures
            (entry.0@, entry.1) == self.entries()[i as int],
    {
        self.assigned.entry(i)
    }

    pub fn prefix(&self) -> (prefix: u8)
        ensures
            prefix == self.subnet_prefix(),
    {
        self.prefix
    }

    /// The address of the client `key`: the one it has, if it lies in the subnet, else the first
    /// free one of the pool.
    pub fn get_or_assign(&mut self, key: &str, kind: AddressKind) -> (address: Result<u32, AddressError>)
        requires
            old(self).wf(),
        ensures
            final(self).wf(),
            final(self).server() == old(self).server(),
            final(self).subnet_prefix() == old(self).subnet_prefix(),
            old(self).assigned().contains_key(key@) && in_subnet(
                old(self).server(),
                old(self).subnet_prefix(),
                old(self).assigned()[key@],
            ) ==> {
                &&& address == Ok::<u32, AddressError>(old(self).assigned()[key@])
                &&& final(self).assigned() == old(self).assigned()
            },
            !(old(self).assigned().contains_key(key@) && in_subnet(
                old(self).server(),
                old(self).subnet_prefix(),
                old(self).assigned()[key@],
            )) ==> match address {
                Ok(a) => {
                    &&& is_free(
                        old(self).assigned(),
                        old(self).server(),
                        old(self).subnet_prefix(),
                        kind,
                        a,
                    )
                    &&& forall|b: u32| #[trigger]
                        is_free(
                            old(self).assigned(),
                            old(self).server(),
                            old(self).subnet_prefix(),
                            kind,
                            b,
                        ) ==> a <= b
                    &&& final(self).assigned() == old(self).assigned().insert(key@, a)
                },
                Err(e) => {
                    &&& e is Exhausted
                    &&& forall|b: u32|
                        !(#[trigger] is_free(
                            old(self).assigned(),
                            old(self).server(),
                            old(self).subnet_prefix(),
                            kind,
                            b,
                        ))
                    &&& final(self).assigned() == old(self).assigned()
                },
            },
    {
        proof {
            lemma_subnet(self.server, self.prefix);
            lemma_two_to();
            lemma_two_to_monotone((32 - self.prefix) as nat, 24);
            lemma_two_to_monotone(2, (32 - self.prefix) as nat);
            if self.prefix < 24 {
                lemma_two_to_monotone(9, (32 - self.prefix) as nat);
            }
        }
        let size: u64 = size_of_subnet(self.prefix);
        let net: u64 = self.server as u64 - self.server as u64 % size;
        let last: u64 = net + size - 1;
        if let Some(a) = self.assigned.get(key) {
            if net <= a as u64 && a as u64 <= last {
                return Ok(a);
            }
        }
        let wide = self.prefix < 24;
        let from: u64 = if wide && kind == AddressKind::Phone {
            net + 256
        } else {
            net + 1
        };
        let to: u64 = if wide && kind == AddressKind::Host {
            net + 254
        } else {
            last - 1
        };
        let ghost m = self.assigned@;
        let mut a: u64 = from;
        while a <= to
            invariant
                self.assigned.wf(),
                self.assigned@ == m,
                8 <= self.prefix <= 30,
                wide == (self.prefix < 24),
                from == pool_first(self.server, self.prefix, kind),
                to == pool_last(self.server, self.prefix, kind),
                to <= u32::MAX,
                from <= a <= to + 1,
                *self == *old(self),
                !(m.contains_key(key@) && in_subnet(self.server, self.prefix, m[key@])),
                forall|b: u32| b < a ==> !(#[trigger] is_free(m, self.server, self.prefix, kind, b)),
            decreases to + 1 - a,
        {
            let low: u64 = a % 256;
            let candidate: u32 = a as u32;
            if (!wide || (low != 0 && low != 255)) && candidate != self.server && !self.assigned.has_value(candidate) {
                assert(is_free(m, self.server, self.prefix, kind, candidate));
                self.assigned.insert(key, candidate);
                return Ok(candidate);
            }
            assert(!is_free(m, self.server, self.prefix, kind, candidate));
            a += 1;
        }
        Err(AddressError::Exhausted)
    }
}

/// The key of a client: a peer by its name, a client behind a router by the router and its
/// number.
pub fn client_key(peer_name: &str, client: Option<u8>) -> (key: String)
    ensures
        key@ == match client {
            None => "peer:"@ + peer_name@,
            Some(n) => "via:"@ + peer_name@ + ":"@ + decimal(n as nat),
        },
{
    match client {
        None => {
            let mut key: String = "peer:".to_owned();
            key.append(peer_name);
            key
        },
        Some(n) => {
            let mut key: String = "via:".to_owned();
            key.append(peer_name);
            key.append(":");
            push_decimal(&mut key, n as u64);
            key
        },
    }
}

/// A client that has an address of the subnet is given the same address again, and nothing else
/// changes.
pub proof fn law_address_stays_put(m: Map<Seq<char>, u32>, server: u32, prefix: u8, kind: AddressKind, key: Seq<char>, a: u32)
    requires
        8 <= prefix <= 30,
        is_free(m, server, prefix, kind, a),
    ensures
        in_subnet(server, prefix, m.insert(key, a)[key]),
{
    lemma_subnet(server, prefix);
    lemma_two_to();
    lemma_two_to_monotone(2, (32 - prefix) as nat);
    if prefix < 24 {
        lemma_two_to_monotone(9, (32 - prefix) as nat);
    }
}

/// No two clients have the same address: handing out a free address keeps the addresses apart.
pub proof fn law_addresses_stay_apart(m: Map<Seq<char>, u32>, server: u32, prefix: u8, kind: AddressKind, key: Seq<char>, a: u32)
    requires
        is_free(m, server, prefix, kind, a),
        forall|x: Seq<char>, y: Seq<char>| #[trigger]
            m.contains_key(x) && #[trigger] m.contains_key(y) && x != y ==> m[x] != m[y],
    ensures
        forall|x: Seq<char>, y: Seq<char>| #[trigger]
            m.insert(key, a).contains_key(x) && #[trigger] m.insert(key, a).contains_key(y) && x != y
                ==> m.insert(key, a)[x] != m.insert(key, a)[y],
{
    assert forall|x: Seq<char>, y: Seq<char>| #[trigger]
        m.insert(key, a).contains_key(x) && #[trigger] m.insert(key, a).contains_key(y) && x != y implies m.insert(
        key,
        a,
    )[x] != m.insert(key, a)[y] by {
        if x != key {
            assert(m.contains_key(x));
            assert(!holds(m, x, a));
        }
        if y != key {
            assert(m.contains_key(y));
            assert(!holds(m, y, a));
        }
    }
}

/// In a wide subnet hosts and phones never get the same address.
pub proof fn law_pools_are_separate(server: u32, prefix: u8, a: u32)
    requires
        8 <= prefix < 24,
    ensures
        !(in_pool(server, prefix, AddressKind::Host, a) && in_pool(server, prefix, AddressKind::Phone, a)),
{
}

} // verus!
