//! Which addresses a book hands out, told by the address of the server and the width of its subnet.

use crate::addresses::{client_key, AddressBook, AddressError, AddressKind};
use crate::subnet::{lemma_two_to, lemma_two_to_monotone, size_of_subnet, two_to};
use crate::text::{decimal, lemma_decimal, lemma_digits_hold_no};
use crate::text_map::{holds, takes};
use vstd::arithmetic::power2::pow2;
use vstd::prelude::*;

verus! {

/// The address with which the subnet of `server` starts: its bits behind the prefix are zero.
pub open spec fn first_of_subnet(server: u32, prefix: u8) -> int {
    server as int - server as int % pow2((32 - prefix) as nat) as int
}

/// The address with which the subnet of `server` ends.
pub open spec fn last_of_subnet(server: u32, prefix: u8) -> int {
    first_of_subnet(server, prefix) + pow2((32 - prefix) as nat) - 1
}

/// A client has the address.
pub open spec fn is_taken(assigned: Map<Seq<char>, u32>, a: u32) -> bool {
    exists|key: Seq<char>| #[trigger] assigned.contains_key(key) && assigned[key] == a
}

/// The client has an address of the subnet.
pub open spec fn is_settled(book: AddressBook, key: Seq<char>) -> bool {
    book.assigned().contains_key(key) && first_of_subnet(book.server(), book.subnet_prefix())
        <= book.assigned()[key] <= last_of_subnet(book.server(), book.subnet_prefix())
}

/// What a client can be given of a subnet of `/24` or narrower: any address between the first and
/// the last one that is not the server's.
pub open spec fn can_be_given(book: AddressBook, a: u32) -> bool {
    first_of_subnet(book.server(), book.subnet_prefix()) < a < last_of_subnet(
        book.server(),
        book.subnet_prefix(),
    ) && a != book.server()
}

/// What a client can be given of a wider subnet: hosts an address of its first 256, phones one of
/// the others; neither the server's nor one that ends in 0 or 255.
pub open spec fn can_be_given_wide(book: AddressBook, kind: AddressKind, a: u32) -> bool {
    let first = first_of_subnet(book.server(), book.subnet_prefix());
    &&& first <= a <= last_of_subnet(book.server(), book.subnet_prefix())
    &&& a != book.server()
    &&& a % 256 != 0 && a % 256 != 255
    &&& match kind {
        AddressKind::Host => a < first + 256,
        AddressKind::Phone => a >= first + 256,
    }
}

pub proof fn lemma_two_to_is_pow2(n: nat)
    ensures
        two_to(n) == pow2(n),
    decreases n,
{
    if n == 0 {
        vstd::arithmetic::power2::lemma2_to64();
    } else {
        lemma_two_to_is_pow2((n - 1) as nat);
        vstd::arithmetic::power2::lemma_pow2_unfold(n);
    }
}

proof fn lemma_taken(assigned: Map<Seq<char>, u32>, a: u32)
    ensures
        is_taken(assigned, a) <==> takes(assigned, a),
{
    if is_taken(assigned, a) {
        let key = choose|key: Seq<char>| #[trigger] assigned.contains_key(key) && assigned[key] == a;
        assert(holds(assigned, key, a));
    }
    if takes(assigned, a) {
        let key = choose|key: Seq<char>| holds(assigned, key, a);
        assert(assigned.contains_key(key));
    }
}

/// The first address of a wide subnet ends in a zero byte.
proof fn lemma_wide(server: u32, prefix: u8)
    requires
        8 <= prefix < 24,
    ensures
        first_of_subnet(server, prefix) % 256 == 0,
        pow2((32 - prefix) as nat) >= 512,
        pow2((32 - prefix) as nat) % 256 == 0,
{
    let size = pow2((32 - prefix) as nat) as int;
    lemma_two_to_is_pow2((32 - prefix) as nat);
    lemma_two_to();
    lemma_two_to_monotone(8, (32 - prefix) as nat);
    lemma_two_to_monotone(9, (32 - prefix) as nat);
    let k = size / 256;
    let q = server as int / size;
    vstd::arithmetic::div_mod::lemma_fundamental_div_mod(server as int, size);
    vstd::arithmetic::div_mod::lemma_fundamental_div_mod(size, 256);
    assert(first_of_subnet(server, prefix) == 256 * (k * q)) by (nonlinear_arith)
        requires
            first_of_subnet(server, prefix) == size * q,
            size == 256 * k,
    ;
}

/// The subnets of a book are those from `/8` to `/30`: with any other there is none.
pub proof fn law_books_are_of_subnets_that_have_addresses(
    server: u32,
    prefix: u8,
    book: Result<AddressBook, AddressError>,
)
    requires
        call_ensures(AddressBook::load, (server, prefix, None::<&str>), book),
    ensures
        book is Ok <==> 8 <= prefix <= 30,
        book matches Ok(b) ==> b.server() == server && b.subnet_prefix() == prefix && b.assigned()
            == Map::<Seq<char>, u32>::empty(),
        book matches Err(e) ==> e == AddressError::Prefix(prefix),
{
}

/// A client that has an address of the subnet keeps it, whatever it asks as, and nothing else
/// changes.
pub proof fn law_a_settled_client_keeps_its_address()
    ensures
        forall|b: &mut AddressBook, key: &str, kind: AddressKind, address: Result<u32, AddressError>|
            #[trigger] call_ensures(AddressBook::get_or_assign, (b, key, kind), address) && (
            *b).wf() && is_settled(*b, key@) ==> {
                &&& address == Ok::<u32, AddressError>((*b).assigned()[key@])
                &&& final(b).assigned() == (*b).assigned()
            },
{
    assert forall|b: &mut AddressBook, key: &str, kind: AddressKind, address: Result<u32, AddressError>|
        #[trigger] call_ensures(AddressBook::get_or_assign, (b, key, kind), address) && (*b).wf()
            && is_settled(*b, key@) implies {
        &&& address == Ok::<u32, AddressError>((*b).assigned()[key@])
        &&& final(b).assigned() == (*b).assigned()
    } by {
        lemma_two_to_is_pow2((32 - (*b).subnet_prefix()) as nat);
    }
}

/// A subnet of `/24` or narrower is one pool for hosts and phones alike: every address between the
/// first and the last one that is not the server's and that nobody has can be handed out. The
/// lowest of them is, and none only where there is none left.
pub proof fn law_a_narrow_subnet_is_one_pool()
    ensures
        forall|b: &mut AddressBook, key: &str, kind: AddressKind, address: Result<u32, AddressError>|
            #[trigger] call_ensures(AddressBook::get_or_assign, (b, key, kind), address) && (
            *b).wf() && 24 <= (*b).subnet_prefix() <= 30 && !is_settled(*b, key@) ==> match address {
                Ok(a) => {
                    &&& can_be_given(*b, a) && !is_taken((*b).assigned(), a)
                    &&& forall|c: u32| #[trigger]
                        can_be_given(*b, c) && !is_taken((*b).assigned(), c) ==> a <= c
                    &&& final(b).assigned() == (*b).assigned().insert(key@, a)
                },
                Err(e) => {
                    &&& e is Exhausted
                    &&& forall|c: u32| #[trigger]
                        can_be_given(*b, c) ==> is_taken((*b).assigned(), c)
                    &&& final(b).assigned() == (*b).assigned()
                },
            },
{
    assert forall|b: &mut AddressBook, key: &str, kind: AddressKind, address: Result<u32, AddressError>|
        #[trigger] call_ensures(AddressBook::get_or_assign, (b, key, kind), address) && (*b).wf()
            && 24 <= (*b).subnet_prefix() <= 30 && !is_settled(*b, key@) implies match address {
        Ok(a) => {
            &&& can_be_given(*b, a) && !is_taken((*b).assigned(), a)
            &&& forall|c: u32| #[trigger]
                can_be_given(*b, c) && !is_taken((*b).assigned(), c) ==> a <= c
            &&& final(b).assigned() == (*b).assigned().insert(key@, a)
        },
        Err(e) => {
            &&& e is Exhausted
            &&& forall|c: u32| #[trigger] can_be_given(*b, c) ==> is_taken((*b).assigned(), c)
            &&& final(b).assigned() == (*b).assigned()
        },
    } by {
        lemma_two_to_is_pow2((32 - (*b).subnet_prefix()) as nat);
        assert forall|c: u32| (can_be_given(*b, c) && !is_taken((*b).assigned(), c)) <==> #[trigger]
            crate::addresses::is_free(
                (*b).assigned(),
                (*b).server(),
                (*b).subnet_prefix(),
                kind,
                c,
            ) by {
            lemma_taken((*b).assigned(), c);
        }
        if let Ok(a) = address {
            assert(crate::addresses::is_free(
                (*b).assigned(),
                (*b).server(),
                (*b).subnet_prefix(),
                kind,
                a,
            ));
        }
        assert forall|c: u32| #[trigger] can_be_given(*b, c) && !is_taken((*b).assigned(), c) implies (
        address matches Ok(a) && a <= c) by {
            assert(crate::addresses::is_free(
                (*b).assigned(),
                (*b).server(),
                (*b).subnet_prefix(),
                kind,
                c,
            ));
        }
    }
}

/// In a wider subnet hosts get addresses of its first 256, phones those of the rest. The lowest one
/// that nobody has and that can be given is handed out, and none only where there is none left.
pub proof fn law_a_wide_subnet_has_a_pool_for_each_kind()
    ensures
        forall|b: &mut AddressBook, key: &str, kind: AddressKind, address: Result<u32, AddressError>|
            #[trigger] call_ensures(AddressBook::get_or_assign, (b, key, kind), address) && (
            *b).wf() && 8 <= (*b).subnet_prefix() < 24 && !is_settled(*b, key@) ==> match address {
                Ok(a) => {
                    &&& can_be_given_wide(*b, kind, a) && !is_taken((*b).assigned(), a)
                    &&& forall|c: u32| #[trigger]
                        can_be_given_wide(*b, kind, c) && !is_taken((*b).assigned(), c) ==> a <= c
                    &&& final(b).assigned() == (*b).assigned().insert(key@, a)
                },
                Err(e) => {
                    &&& e is Exhausted
                    &&& forall|c: u32| #[trigger]
                        can_be_given_wide(*b, kind, c) ==> is_taken((*b).assigned(), c)
                    &&& final(b).assigned() == (*b).assigned()
                },
            },
{
    assert forall|b: &mut AddressBook, key: &str, kind: AddressKind, address: Result<u32, AddressError>|
        #[trigger] call_ensures(AddressBook::get_or_assign, (b, key, kind), address) && (*b).wf()
            && 8 <= (*b).subnet_prefix() < 24 && !is_settled(*b, key@) implies match address {
        Ok(a) => {
            &&& can_be_given_wide(*b, kind, a) && !is_taken((*b).assigned(), a)
            &&& forall|c: u32| #[trigger]
                can_be_given_wide(*b, kind, c) && !is_taken((*b).assigned(), c) ==> a <= c
            &&& final(b).assigned() == (*b).assigned().insert(key@, a)
        },
        Err(e) => {
            &&& e is Exhausted
            &&& forall|c: u32| #[trigger]
                can_be_given_wide(*b, kind, c) ==> is_taken((*b).assigned(), c)
            &&& final(b).assigned() == (*b).assigned()
        },
    } by {
        lemma_two_to_is_pow2((32 - (*b).subnet_prefix()) as nat);
        lemma_wide((*b).server(), (*b).subnet_prefix());
        assert forall|c: u32| (can_be_given_wide(*b, kind, c) && !is_taken((*b).assigned(), c))
            <==> #[trigger] crate::addresses::is_free(
            (*b).assigned(),
            (*b).server(),
            (*b).subnet_prefix(),
            kind,
            c,
        ) by {
            lemma_taken((*b).assigned(), c);
        }
        if let Ok(a) = address {
            assert(crate::addresses::is_free(
                (*b).assigned(),
                (*b).server(),
                (*b).subnet_prefix(),
                kind,
                a,
            ));
        }
        assert forall|c: u32| #[trigger] can_be_given_wide(*b, kind, c) && !is_taken(
            (*b).assigned(),
            c,
        ) implies (address matches Ok(a) && a <= c) by {
            assert(crate::addresses::is_free(
                (*b).assigned(),
                (*b).server(),
                (*b).subnet_prefix(),
                kind,
                c,
            ));
        }
    }
}

/// A subnet has two to the power of the bits behind its prefix addresses.
pub proof fn law_subnet_sizes_are_powers_of_two(prefix: u8, size: u64)
    requires
        prefix <= 32,
        call_ensures(size_of_subnet, (prefix,), size),
    ensures
        size == pow2((32 - prefix) as nat),
{
    lemma_two_to_is_pow2((32 - prefix) as nat);
}

/// Clients have different keys: one key tells the peer, whether the client is the peer itself, and
/// if not, its number behind the peer.
pub proof fn law_keys_tell_clients_apart(
    name: &str,
    client: Option<u8>,
    other_name: &str,
    other: Option<u8>,
    key: String,
)
    requires
        call_ensures(client_key, (name, client), key),
        call_ensures(client_key, (other_name, other), key),
    ensures
        name@ == other_name@,
        client == other,
{
    reveal_strlit("peer:");
    reveal_strlit("via:");
    reveal_strlit(":");
    match (client, other) {
        (None, None) => {
            assert(key@.skip(5) =~= name@);
            assert(key@.skip(5) =~= other_name@);
        },
        (Some(a), Some(b)) => {
            let (d, e) = (decimal(a as nat), decimal(b as nat));
            lemma_decimal(a as nat);
            lemma_decimal(b as nat);
            lemma_digits_hold_no(d, ':');
            lemma_digits_hold_no(e, ':');
            let n = key@.len();
            if d.len() < e.len() {
                assert(key@[n - d.len() - 1] == ':');
                assert(key@[n - d.len() - 1] == e[e.len() - d.len() - 1]);
            } else if e.len() < d.len() {
                assert(key@[n - e.len() - 1] == ':');
                assert(key@[n - e.len() - 1] == d[d.len() - e.len() - 1]);
            }
            assert(key@.skip(n - d.len()) =~= d);
            assert(key@.skip(n - e.len()) =~= e);
            assert(key@.subrange(4, n - d.len() - 1) =~= name@);
            assert(key@.subrange(4, n - e.len() - 1) =~= other_name@);
        },
        (None, Some(_)) => {
            assert(key@[0] == 'p');
            assert(key@[0] == 'v');
        },
        (Some(_), None) => {
            assert(key@[0] == 'p');
            assert(key@[0] == 'v');
        },
    }
}

} // verus!
