//! `PeerLinkId`: a stable identifier of one punched hole.
//!
//! A hole is a pair of sessions: ours and the peer's. Both sides know both, so the identifier is
//! computed symmetrically and comes out the same at both ends.

use crate::bytes::lemma_be_index;
use crate::guid::{high, low, lemma_bytes_injective, ordered, Guid};
use crate::number_laws::lemma_pow256_is_pow;
use vstd::arithmetic::power::pow;
use vstd::prelude::*;

verus! {

/// 32 bytes: the two session GUIDs in ascending order.
#[derive(Clone, Copy, Debug)]
pub struct PeerLinkId {
    bytes: [u8; 32],
}

impl View for PeerLinkId {
    type V = Seq<u8>;

    closed spec fn view(&self) -> Seq<u8> {
        self.bytes@
    }
}

/// The identifier of the hole between two sessions.
pub open spec fn link_id(a: Guid, b: Guid) -> Seq<u8> {
    low(a, b).bytes() + high(a, b).bytes()
}

impl PeerLinkId {
    /// Folds two sessions into an identifier.
    pub fn new(session_a: Guid, session_b: Guid) -> (id: Self)
        ensures
            id@ == link_id(session_a, session_b),
    {
        let (lo, hi) = ordered(session_a, session_b);
        let (lo_bytes, hi_bytes) = (lo.to_bytes(), hi.to_bytes());
        let mut bytes: [u8; 32] = [0u8; 32];
        let mut i: usize = 0;
        while i < 16
            invariant
                i <= 16,
                forall|k: int| 0 <= k < i ==> bytes@[k] == lo_bytes@[k] && bytes@[k + 16] == hi_bytes@[k],
            decreases 16 - i,
        {
            bytes[i] = lo_bytes[i];
            bytes[i + 16] = hi_bytes[i];
            i += 1;
        }
        proof {
            assert forall|k: int| 16 <= k < 32 implies bytes@[k] == hi_bytes@[k - 16] by {
                assert(bytes@[(k - 16) + 16] == hi_bytes@[k - 16]);
            }
            assert(bytes@ =~= lo_bytes@ + hi_bytes@);
        }
        Self { bytes }
    }

    pub fn as_bytes(&self) -> (bytes: &[u8; 32])
        ensures
            bytes@ == self@,
    {
        &self.bytes
    }

    /// The two identifiers are equal.
    pub fn same(&self, other: &Self) -> (same: bool)
        ensures
            same == (self@ == other@),
    {
        crate::bytes::same_bytes(self.bytes.as_slice(), other.bytes.as_slice())
    }
}

/// Both ends of a hole compute the same identifier.
pub proof fn law_link_id_is_symmetric(a: Guid, b: Guid)
    ensures
        link_id(a, b) == link_id(b, a),
{
}

/// Different pairs of sessions have different identifiers.
pub proof fn law_link_id_is_distinct(a: Guid, b: Guid, c: Guid, d: Guid)
    requires
        link_id(a, b) == link_id(c, d),
    ensures
        a == c && b == d || a == d && b == c,
{
    crate::bytes::lemma_be_bytes(low(a, b).value as nat, 16);
    crate::bytes::lemma_be_bytes(low(c, d).value as nat, 16);
    assert(link_id(a, b).take(16) =~= low(a, b).bytes());
    assert(link_id(c, d).take(16) =~= low(c, d).bytes());
    assert(link_id(a, b).skip(16) =~= high(a, b).bytes());
    assert(link_id(c, d).skip(16) =~= high(c, d).bytes());
    lemma_bytes_injective(low(a, b), low(c, d));
    lemma_bytes_injective(high(a, b), high(c, d));
}

/// The identifier of a hole holds the bytes of both sessions, highest byte first, and those of the
/// lower session stand in front.
pub proof fn law_the_lower_session_comes_first(a: Guid, b: Guid, id: PeerLinkId, i: nat)
    requires
        call_ensures(PeerLinkId::new, (a, b), id),
        i < 16,
        a.value <= b.value,
    ensures
        id@.len() == 32,
        id@[15 - i] == a.value as int / pow(256, i) % 256,
        id@[31 - i] == b.value as int / pow(256, i) % 256,
{
    lemma_pow256_is_pow(i);
    lemma_be_index(a.value as nat, 16, i);
    lemma_be_index(b.value as nat, 16, i);
}

} // verus!
