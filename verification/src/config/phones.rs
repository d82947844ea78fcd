//! The phones of a router.

use super::{
    guid_in, phone_name, phone_variable, tidied, tidy_text, ConfigError, ConfigModel, Expected, Vars,
};
use crate::guid::Guid;
use vstd::prelude::*;

verus! {

/// A phone of a router.
#[derive(Clone, Copy, Debug, PartialEq, Eq, Structural)]
pub struct Phone {
    /// The number of the phone, under which its packets are wrapped.
    pub client_id: u8,
    /// The GUID of the router in the set of holes to this phone.
    pub my_id: Guid,
    pub peer_id: Guid,
}

/// One of the phones has this GUID.
pub open spec fn listed(phones: Seq<Phone>, peer_id: Guid) -> bool {
    exists|i: int| 0 <= i < phones.len() && (#[trigger] phones[i]).peer_id == peer_id
}

/// The phones with the numbers from `n` on, after those that were read. They are numbered one
/// after the other: behind the first number without a phone no more are read. With `tidy`, white
/// space around the GUIDs does not matter and a phone that comes twice is refused at once.
pub open spec fn phones_from(vars: Vars, n: int, read: Seq<Phone>, tidy: bool) -> Result<
    Seq<Phone>,
    ConfigModel,
>
    decreases 256 - n,
{
    if n > u8::MAX {
        Ok(read)
    } else {
        let my_name = phone_name(n as u8, "_MY_ID"@);
        let peer_name = phone_name(n as u8, "_PEER_ID"@);
        match (vars.value(my_name), vars.value(peer_name)) {
            (None, None) => Ok(read),
            (Some(my), Some(peer)) => match guid_in(tidied(my, tidy)) {
                None => Err(ConfigModel::Bad(my_name, Expected::Guid)),
                Some(my_id) => match guid_in(tidied(peer, tidy)) {
                    None => Err(ConfigModel::Bad(peer_name, Expected::Guid)),
                    Some(peer_id) => if tidy && listed(read, peer_id) {
                        Err(ConfigModel::PhoneTwice(peer_id))
                    } else {
                        phones_from(
                            vars,
                            n + 1,
                            read.push(Phone { client_id: n as u8, my_id, peer_id }),
                            tidy,
                        )
                    },
                },
            },
            _ => Err(ConfigModel::HalfPhone(n as u8)),
        }
    }
}

/// One of the phones has this GUID.
pub fn is_listed(phones: &Vec<Phone>, peer_id: Guid) -> (is: bool)
    ensures
        is == listed(phones@, peer_id),
{
    let mut i: usize = 0;
    while i < phones.len()
        invariant
            i <= phones@.len(),
            forall|k: int| 0 <= k < i ==> (#[trigger] phones@[k]).peer_id != peer_id,
        decreases phones@.len() - i,
    {
        if phones[i].peer_id == peer_id {
            assert(phones@[i as int].peer_id == peer_id);
            return true;
        }
        i += 1;
    }
    false
}

/// Reads the phones.
pub fn parse_phones(vars: &Vars, tidy: bool) -> (phones: Result<Vec<Phone>, ConfigError>)
    ensures
        match phones {
            Ok(p) => phones_from(*vars, 1, Seq::empty(), tidy) == Ok::<Seq<Phone>, ConfigModel>(p@),
            Err(e) => phones_from(*vars, 1, Seq::empty(), tidy) == Err::<Seq<Phone>, ConfigModel>(
                e@,
            ),
        },
{
    let mut phones: Vec<Phone> = Vec::new();
    let mut n: u16 = 1;
    assert(phones@ =~= Seq::<Phone>::empty());
    while n <= 255
        invariant
            1 <= n <= 256,
            phones_from(*vars, 1, Seq::empty(), tidy) == phones_from(*vars, n as int, phones@, tidy),
        decreases 256 - n,
    {
        let client_id: u8 = n as u8;
        let my_name: String = phone_variable(client_id, "_MY_ID");
        let peer_name: String = phone_variable(client_id, "_PEER_ID");
        match (vars.get(my_name.as_str()), vars.get(peer_name.as_str())) {
            (None, None) => {
                return Ok(phones);
            },
            (Some(my), Some(peer)) => {
                let my_id = match Guid::parse(tidy_text(my.as_str(), tidy)) {
                    Some(id) => id,
                    None => {
                        return Err(ConfigError::Bad(my_name, Expected::Guid));
                    },
                };
                let peer_id = match Guid::parse(tidy_text(peer.as_str(), tidy)) {
                    Some(id) => id,
                    None => {
                        return Err(ConfigError::Bad(peer_name, Expected::Guid));
                    },
                };
                if tidy && is_listed(&phones, peer_id) {
                    return Err(ConfigError::PhoneTwice(peer_id));
                }
                phones.push(Phone { client_id, my_id, peer_id });
            },
            _ => {
                return Err(ConfigError::HalfPhone(client_id));
            },
        }
        n += 1;
    }
    Ok(phones)
}

/// The first phone for which the router has a GUID that it has already, in the set of holes to
/// the server or to an earlier phone.
pub open spec fn first_router_twice(server_my_id: Guid, phones: Seq<Phone>) -> Option<Guid>
    decreases phones.len(),
{
    if phones.len() == 0 {
        None
    } else {
        match first_router_twice(server_my_id, phones.drop_last()) {
            Some(id) => Some(id),
            None => if phones.last().my_id == server_my_id || used_by(
                phones.drop_last(),
                phones.last().my_id,
            ) {
                Some(phones.last().my_id)
            } else {
                None
            },
        }
    }
}

/// The router has this GUID for one of the phones.
pub open spec fn used_by(phones: Seq<Phone>, my_id: Guid) -> bool {
    exists|i: int| 0 <= i < phones.len() && (#[trigger] phones[i]).my_id == my_id
}

/// Finds a GUID that the router has in two sets of holes.
pub fn find_router_twice(server_my_id: Guid, phones: &Vec<Phone>) -> (twice: Option<Guid>)
    ensures
        twice == first_router_twice(server_my_id, phones@),
{
    let mut i: usize = 0;
    assert(phones@.take(0) =~= Seq::<Phone>::empty());
    while i < phones.len()
        invariant
            i <= phones@.len(),
            first_router_twice(server_my_id, phones@.take(i as int)) is None,
        decreases phones@.len() - i,
    {
        let id = phones[i].my_id;
        let mut used = id == server_my_id;
        let mut k: usize = 0;
        while k < i
            invariant
                k <= i < phones@.len(),
                used == (id == server_my_id || used_by(phones@.take(k as int), id)),
            decreases i - k,
        {
            proof {
                let (shorter, longer) = (phones@.take(k as int), phones@.take(k + 1));
                if used_by(shorter, id) {
                    let j = choose|j: int|
                        0 <= j < shorter.len() && (#[trigger] shorter[j]).my_id == id;
                    assert(longer[j].my_id == id);
                }
                if used_by(longer, id) {
                    let j = choose|j: int|
                        0 <= j < longer.len() && (#[trigger] longer[j]).my_id == id;
                    if j < k {
                        assert(shorter[j].my_id == id);
                    }
                }
                assert(longer[k as int] == phones@[k as int]);
            }
            if phones[k].my_id == id {
                used = true;
            }
            k += 1;
        }
        proof {
            assert(phones@.take(i + 1).drop_last() =~= phones@.take(i as int));
            assert(phones@.take(i + 1).last() == phones@[i as int]);
        }
        if used {
            proof {
                lemma_router_twice_stays(server_my_id, phones@, i + 1);
            }
            return Some(id);
        }
        i += 1;
    }
    assert(phones@.take(phones@.len() as int) =~= phones@);
    None
}

proof fn lemma_router_twice_stays(server_my_id: Guid, phones: Seq<Phone>, n: int)
    requires
        0 <= n <= phones.len(),
        first_router_twice(server_my_id, phones.take(n)) is Some,
    ensures
        first_router_twice(server_my_id, phones) == first_router_twice(server_my_id, phones.take(n)),
    decreases phones.len() - n,
{
    if n == phones.len() {
        assert(phones.take(n) =~= phones);
    } else {
        assert(phones.take(n + 1).drop_last() =~= phones.take(n));
        lemma_router_twice_stays(server_my_id, phones, n + 1);
    }
}

/// The first phone that was listed before.
pub open spec fn first_phone_twice(phones: Seq<Phone>) -> Option<Guid>
    decreases phones.len(),
{
    if phones.len() == 0 {
        None
    } else {
        match first_phone_twice(phones.drop_last()) {
            Some(id) => Some(id),
            None => if listed(phones.drop_last(), phones.last().peer_id) {
                Some(phones.last().peer_id)
            } else {
                None
            },
        }
    }
}

/// Finds a phone that is listed twice.
pub fn find_phone_twice(phones: &Vec<Phone>) -> (twice: Option<Guid>)
    ensures
        twice == first_phone_twice(phones@),
{
    let mut earlier: Vec<Phone> = Vec::new();
    let mut i: usize = 0;
    assert(earlier@ =~= phones@.take(0));
    while i < phones.len()
        invariant
            i <= phones@.len(),
            earlier@ == phones@.take(i as int),
            first_phone_twice(phones@.take(i as int)) is None,
        decreases phones@.len() - i,
    {
        proof {
            assert(phones@.take(i + 1).drop_last() =~= phones@.take(i as int));
            assert(phones@.take(i + 1).last() == phones@[i as int]);
        }
        if is_listed(&earlier, phones[i].peer_id) {
            proof {
                lemma_phone_twice_stays(phones@, i + 1);
            }
            return Some(phones[i].peer_id);
        }
        earlier.push(phones[i]);
        i += 1;
        assert(earlier@ =~= phones@.take(i as int));
    }
    assert(phones@.take(phones@.len() as int) =~= phones@);
    None
}

proof fn lemma_phone_twice_stays(phones: Seq<Phone>, n: int)
    requires
        0 <= n <= phones.len(),
        first_phone_twice(phones.take(n)) is Some,
    ensures
        first_phone_twice(phones) == first_phone_twice(phones.take(n)),
    decreases phones.len() - n,
{
    if n == phones.len() {
        assert(phones.take(n) =~= phones);
    } else {
        assert(phones.take(n + 1).drop_last() =~= phones.take(n));
        lemma_phone_twice_stays(phones, n + 1);
    }
}

/// The phones are numbered from one on without gaps.
pub proof fn law_phones_are_numbered_consecutively(vars: Vars, tidy: bool)
    ensures
        phones_from(vars, 1, Seq::empty(), tidy) matches Ok(phones) ==> phones.len() <= u8::MAX
            && forall|i: int| 0 <= i < phones.len() ==> (#[trigger] phones[i]).client_id == i + 1,
{
    lemma_numbered(vars, 1, Seq::empty(), tidy);
}

proof fn lemma_numbered(vars: Vars, n: int, read: Seq<Phone>, tidy: bool)
    requires
        1 <= n <= 256,
        read.len() == n - 1,
        forall|i: int| 0 <= i < read.len() ==> (#[trigger] read[i]).client_id == i + 1,
    ensures
        phones_from(vars, n, read, tidy) matches Ok(phones) ==> phones.len() <= u8::MAX && forall|
            i: int,
        |
            0 <= i < phones.len() ==> (#[trigger] phones[i]).client_id == i + 1,
    decreases 256 - n,
{
    if n <= u8::MAX {
        let my_name = phone_name(n as u8, "_MY_ID"@);
        let peer_name = phone_name(n as u8, "_PEER_ID"@);
        if let (Some(my), Some(peer)) = (vars.value(my_name), vars.value(peer_name)) {
            if let (Some(my_id), Some(peer_id)) = (
                guid_in(tidied(my, tidy)),
                guid_in(tidied(peer, tidy)),
            ) {
                lemma_numbered(
                    vars,
                    n + 1,
                    read.push(Phone { client_id: n as u8, my_id, peer_id }),
                    tidy,
                );
            }
        }
    }
}

/// Where no GUID of the router is found twice, it has a different one in every set of holes.
pub proof fn law_router_ids_differ(server_my_id: Guid, phones: Seq<Phone>)
    requires
        first_router_twice(server_my_id, phones) is None,
    ensures
        forall|i: int| 0 <= i < phones.len() ==> (#[trigger] phones[i]).my_id != server_my_id,
        forall|i: int, j: int|
            0 <= i < j < phones.len() ==> (#[trigger] phones[i]).my_id != (
            #[trigger] phones[j]).my_id,
    decreases phones.len(),
{
    if phones.len() > 0 {
        let rest = phones.drop_last();
        law_router_ids_differ(server_my_id, rest);
        assert forall|i: int| 0 <= i < phones.len() implies (#[trigger] phones[i]).my_id
            != server_my_id by {
            if i < rest.len() {
                assert(rest[i] == phones[i]);
            }
        }
        assert forall|i: int, j: int| 0 <= i < j < phones.len() implies (
        #[trigger] phones[i]).my_id != (#[trigger] phones[j]).my_id by {
            assert(rest[i] == phones[i]);
            if j < rest.len() {
                assert(rest[j] == phones[j]);
            } else if phones[i].my_id == phones[j].my_id {
                assert(used_by(rest, phones.last().my_id));
            }
        }
    }
}

} // verus!
