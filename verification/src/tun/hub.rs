//! A server with one TUN device for many peers: phones, routers with phones behind them, hosts.
//!
//! Packets are routed by the addresses that were given out: an address belongs to a peer, or to a
//! client behind it. A packet of the device goes to the owner of its destination. A packet of a
//! peer is written to the device only if its source address belongs to that very peer and client:
//! nobody can use the address of another.

use crate::assoc::{AssocList, Key};
use crate::guid::Guid;
use crate::multilink::Incoming;
use crate::net::Ip;
use crate::tun::bridge::{advanced, routed, Route, Sequencer};
use crate::tun::packet::{inspect, inspected, Info};
use std::collections::HashMap;
use vstd::prelude::*;

verus! {

broadcast use vstd::std_specs::hash::group_hash_axioms;

/// Whose an address is: a peer's, or a client's behind it.
#[derive(Clone, Copy, Debug, PartialEq, Eq)]
pub struct Owner {
    pub peer: Guid,
    pub client: Option<u8>,
}

impl View for Owner {
    type V = Owner;

    open spec fn view(&self) -> Owner {
        *self
    }
}

impl Key for Owner {
    fn same_key(&self, other: &Owner) -> (same: bool) {
        let same_client = match (self.client, other.client) {
            (Some(a), Some(b)) => a == b,
            (None, None) => true,
            _ => false,
        };
        self.peer == other.peer && same_client
    }
}

/// The owner of an address and the numbers of the flows to it.
#[derive(Clone, Copy)]
pub struct Target {
    pub owner: Owner,
    pub sequencer: Sequencer,
}

/// The addresses that were given out.
pub struct Routes {
    by_addr: HashMap<u32, Target>,
    by_owner: AssocList<Owner, u32>,
}

impl Routes {
    /// The owner of each address, and the numbers of the flows to it.
    pub closed spec fn targets(&self) -> Map<u32, Target> {
        self.by_addr@
    }

    /// The address of each owner.
    pub closed spec fn addresses(&self) -> Map<Owner, u32> {
        self.by_owner@
    }

    /// Every owner has one address and every address one owner.
    pub open spec fn wf(&self) -> bool {
        &&& forall|o: Owner| #[trigger]
            self.addresses().contains_key(o) ==> {
                &&& self.targets().contains_key(self.addresses()[o])
                &&& self.targets()[self.addresses()[o]].owner == o
            }
        &&& forall|a: u32| #[trigger]
            self.targets().contains_key(a) ==> {
                &&& self.addresses().contains_key(self.targets()[a].owner)
                &&& self.addresses()[self.targets()[a].owner] == a
            }
    }

    pub fn new() -> (routes: Self)
        ensures
            routes.wf(),
            routes.targets() == Map::<u32, Target>::empty(),
            routes.addresses() == Map::<Owner, u32>::empty(),
    {
        Routes { by_addr: HashMap::new(), by_owner: AssocList::new() }
    }

    /// Gives an address to an owner. What the address and the owner were bound to before is
    /// forgotten; the numbers of the flows start over, unless nothing changes.
    pub fn assign(&mut self, address: u32, owner: Owner)
        requires
            old(self).wf(),
        ensures
            final(self).wf(),
            final(self).addresses() == without_owner_of(
                old(self).addresses(),
                old(self).targets(),
                address,
            ).insert(owner, address),
            final(self).targets().contains_key(address),
            final(self).targets()[address].owner == owner,
            final(self).targets()[address].sequencer@ == if old(self).addresses().contains_key(
                owner,
            ) && old(self).addresses()[owner] == address {
                old(self).targets()[address].sequencer@
            } else {
                Seq::new(16, |i: int| 0u64)
            },
            final(self).targets().remove(address) == without_address_of(
                old(self).targets(),
                old(self).addresses(),
                owner,
            ).remove(address),
    {
        let ghost addresses = self.addresses();
        let ghost targets = self.targets();
        let bound = match self.by_owner.get(&owner) {
            Some(old_address) => Some(*old_address),
            None => None,
        };
        if let Some(old_address) = bound {
            if old_address == address {
                proof {
                    assert(targets[address].owner == owner);
                    assert(without_owner_of(addresses, targets, address).insert(owner, address)
                        =~= addresses);
                    assert(without_address_of(targets, addresses, owner).remove(address)
                        =~= targets.remove(address));
                }
                return;
            }
            self.by_addr.remove(&old_address);
        }
        let previous = match self.by_addr.get(&address) {
            Some(target) => Some(target.owner),
            None => None,
        };
        if let Some(previous_owner) = previous {
            self.by_owner.remove(&previous_owner);
        }
        self.by_owner.insert(owner, address);
        self.by_addr.insert(address, Target { owner, sequencer: Sequencer::default() });
        proof {
            assert(self.addresses() =~= without_owner_of(addresses, targets, address).insert(
                owner,
                address,
            ));
            assert(self.targets().remove(address) =~= without_address_of(
                targets,
                addresses,
                owner,
            ).remove(address));
            assert forall|o: Owner| #[trigger] self.addresses().contains_key(o) implies {
                &&& self.targets().contains_key(self.addresses()[o])
                &&& self.targets()[self.addresses()[o]].owner == o
            } by {
                if o != owner {
                    assert(addresses.contains_key(o));
                    let a = addresses[o];
                    assert(targets[a].owner == o);
                    assert(a != address);
                }
            }
            assert forall|a: u32| #[trigger] self.targets().contains_key(a) implies {
                &&& self.addresses().contains_key(self.targets()[a].owner)
                &&& self.addresses()[self.targets()[a].owner] == a
            } by {
                if a != address {
                    assert(targets.contains_key(a));
                    let o = targets[a].owner;
                    assert(addresses[o] == a);
                    assert(o != owner);
                }
            }
        }
    }

    /// The address of an owner.
    pub fn address_of(&self, owner: Owner) -> (address: Option<u32>)
        ensures
            address == if self.addresses().contains_key(owner) {
                Some(self.addresses()[owner])
            } else {
                None
            },
    {
        match self.by_owner.get(&owner) {
            Some(address) => Some(*address),
            None => None,
        }
    }

    /// Takes a packet of the device: the owner of its destination and how it travels there;
    /// nothing, where it is no IP packet or its destination was not given out.
    pub fn uplink(&mut self, packet: &[u8]) -> (to: Option<(Owner, Route)>)
        ensures
            final(self).addresses() == old(self).addresses(),
            final(self).targets().dom() == old(self).targets().dom(),
            forall|a: u32| #[trigger]
                old(self).targets().contains_key(a) ==> final(self).targets()[a].owner == old(
                    self,
                ).targets()[a].owner,
            match destination(inspected(packet@)) {
                Some(dst) => if old(self).targets().contains_key(dst) {
                    let before = old(self).targets()[dst];
                    let after = final(self).targets()[dst];
                    &&& to == Some(
                        (before.owner, routed(before.sequencer@, packet@.len(), inspected(packet@))),
                    )
                    &&& after.sequencer@ == advanced(
                        before.sequencer@,
                        packet@.len(),
                        inspected(packet@),
                    )
                    &&& final(self).targets().remove(dst) == old(self).targets().remove(dst)
                } else {
                    to is None && final(self).targets() == old(self).targets()
                },
                None => to is None && final(self).targets() == old(self).targets(),
            },
            old(self).wf() ==> final(self).wf(),
    {
        let info = match inspect(packet) {
            Some(info) => info,
            None => {
                return None;
            },
        };
        let dst: u32 = match info.dst {
            Ip::V4(dst) => dst,
            Ip::V6(_) => {
                return None;
            },
        };
        let found = match self.by_addr.get(&dst) {
            Some(target) => Some(*target),
            None => None,
        };
        match found {
            Some(target) => {
                let mut sequencer = target.sequencer;
                let route = sequencer.route_inspected(packet.len(), Some(&info));
                self.by_addr.insert(dst, Target { owner: target.owner, sequencer });
                proof {
                    assert(self.targets().dom() =~= old(self).targets().dom());
                    assert(self.targets().remove(dst) =~= old(self).targets().remove(dst));
                }
                Some((target.owner, route))
            },
            None => None,
        }
    }

    /// A packet that came from a peer may be written to the device: its source address belongs
    /// to that peer, and to the client that the packet is of.
    pub fn downlink(&self, peer: Guid, packet: &Incoming) -> (allowed: bool)
        ensures
            allowed == is_own(self.addresses(), sender(peer, *packet), packet.payload@),
    {
        let client = match packet.wrapped {
            Some(wrapped) => Some(wrapped.client_id),
            None => None,
        };
        let owner = Owner { peer, client };
        let src: u32 = match inspect(packet.payload.as_slice()) {
            Some(info) => match info.src {
                Ip::V4(src) => src,
                Ip::V6(_) => {
                    return false;
                },
            },
            None => {
                return false;
            },
        };
        match self.address_of(owner) {
            Some(address) => address == src,
            None => false,
        }
    }
}

/// The addresses without that of the owner of an address.
pub open spec fn without_owner_of(
    addresses: Map<Owner, u32>,
    targets: Map<u32, Target>,
    address: u32,
) -> Map<Owner, u32> {
    if targets.contains_key(address) {
        addresses.remove(targets[address].owner)
    } else {
        addresses
    }
}

/// The targets without the address of an owner.
pub open spec fn without_address_of(
    targets: Map<u32, Target>,
    addresses: Map<Owner, u32>,
    owner: Owner,
) -> Map<u32, Target> {
    if addresses.contains_key(owner) {
        targets.remove(addresses[owner])
    } else {
        targets
    }
}

/// The IPv4 destination of a packet.
pub open spec fn destination(info: Option<Info>) -> Option<u32> {
    match info {
        Some(i) => match i.dst {
            Ip::V4(dst) => Some(dst),
            Ip::V6(_) => None,
        },
        None => None,
    }
}

/// The IPv4 source of a packet.
pub open spec fn source(info: Option<Info>) -> Option<u32> {
    match info {
        Some(i) => match i.src {
            Ip::V4(src) => Some(src),
            Ip::V6(_) => None,
        },
        None => None,
    }
}

/// Who a packet of a peer is of.
pub open spec fn sender(peer: Guid, packet: Incoming) -> Owner {
    Owner {
        peer,
        client: match packet.wrapped {
            Some(w) => Some(w.client_id),
            None => None,
        },
    }
}

/// The source address of the packet was given to the owner.
pub open spec fn is_own(addresses: Map<Owner, u32>, owner: Owner, packet: Seq<u8>) -> bool {
    source(inspected(packet)) is Some && addresses.contains_key(owner) && addresses[owner]
        == source(inspected(packet))->0
}

/// Nobody can use the address of another: of two owners at most one may send from an address.
pub proof fn law_foreign_source_is_refused(
    routes: Routes,
    one: Owner,
    other: Owner,
    packet: Seq<u8>,
)
    requires
        routes.wf(),
        is_own(routes.addresses(), one, packet),
        is_own(routes.addresses(), other, packet),
    ensures
        one == other,
        routes.targets()[source(inspected(packet))->0].owner == one,
{
}

} // verus!
