//! Authenticity of packets: the name of a peer, the secret of a pair, keys and signatures.
//!
//! The full GUID of a peer is a secret that only the two members of a pair know; the outside
//! sees its first group, the name. From the two GUIDs both sides compute the same secret of the
//! pair, and from it everything else: the masking vector of each session, a signing key for each
//! direction of a hole, the keys of the acquaintance port and the signature of records.
//!
//! A packet in a hole starts with a tag (16 bytes) and a counter (8 bytes, least significant
//! first); the message follows. The tag covers the first [`SIGNED_PREFIX`] bytes of the message,
//! its length and the counter. A sliding window of counters turns repeated packets away.

use crate::bytes::put_bytes;
use crate::crypto::{
    hmac_sha256, hmac_sha256_mac, hmac_sha256_verify, sha256, sha256_digest,
};
use crate::guid::{guid_text, high, low, ordered, Guid};
use crate::xor::XorKey;
use vstd::prelude::*;
use vstd::string::*;

verus! {

/// Signature in front of every packet: tag and counter.
pub const AUTH_LEN: usize = 24;

/// How many first bytes of a message are signed (together with its full length).
pub const SIGNED_PREFIX: usize = 128;

/// Length of the signature of a record.
pub const RENDEZVOUS_MAC_LEN: usize = 16;

/// Signing key.
pub type AuthKey = [u8; 32];

/// The public name of a peer: the first group of its GUID.
pub fn peer_name(id: &Guid) -> (name: String)
    ensures
        name@ == guid_text(id.value).take(8),
{
    let text: String = id.text();
    let name = text.as_str().substring_char(0, 8);
    assert(guid_text(id.value).subrange(0, 8) =~= guid_text(id.value).take(8));
    name.to_owned()
}

/// What the secret of a pair is the digest of.
pub open spec fn pair_input(a: Guid, b: Guid) -> Seq<u8> {
    "home-proxy/pair/v1".spec_bytes() + low(a, b).bytes() + high(a, b).bytes()
}

/// What the key for the purpose `label` with the details `parts` is the digest of.
pub open spec fn derive_input(secret: Seq<u8>, label: Seq<char>, parts: Seq<u8>) -> Seq<u8> {
    "home-proxy/v1/".spec_bytes() + vstd::utf8::encode_utf8(label) + seq![0u8] + secret + parts
}

/// The key for the purpose `label` with the details `parts`.
pub open spec fn derived(secret: Seq<u8>, label: Seq<char>, parts: Seq<u8>) -> Seq<u8> {
    sha256(derive_input(secret, label, parts))@
}

/// The secret of a pair of peers.
#[derive(Clone, Copy)]
pub struct PairSecret {
    bytes: [u8; 32],
}

impl View for PairSecret {
    type V = Seq<u8>;

    closed spec fn view(&self) -> Seq<u8> {
        self.bytes@
    }
}

/// The first 16 bytes of a key.
fn first_16(full: &[u8; 32]) -> (out: [u8; 16])
    ensures
        out@ == full@.take(16),
{
    let mut out: [u8; 16] = [0u8; 16];
    let mut i: usize = 0;
    while i < 16
        invariant
            i <= 16,
            forall|k: int| 0 <= k < i ==> out@[k] == full@[k],
        decreases 16 - i,
    {
        out[i] = full[i];
        i += 1;
    }
    assert(out@ =~= full@.take(16));
    out
}

impl PairSecret {
    pub fn new(a: Guid, b: Guid) -> (pair: Self)
        ensures
            pair@ == sha256(pair_input(a, b))@,
    {
        let (lo, hi) = ordered(a, b);
        let (lo_bytes, hi_bytes) = (lo.to_bytes(), hi.to_bytes());
        let mut input: Vec<u8> = Vec::new();
        put_bytes(&mut input, "home-proxy/pair/v1".as_bytes());
        put_bytes(&mut input, lo_bytes.as_slice());
        put_bytes(&mut input, hi_bytes.as_slice());
        assert(input@ =~= pair_input(a, b));
        Self { bytes: sha256_digest(input.as_slice()) }
    }

    /// The bytes of the secret.
    pub fn as_bytes(&self) -> (bytes: &[u8; 32])
        ensures
            bytes@ == self@,
    {
        &self.bytes
    }

    /// The key for the purpose `label` with the details `parts`.
    fn derive(&self, label: &str, parts: &[u8]) -> (key: [u8; 32])
        ensures
            key@ == derived(self@, label@, parts@),
    {
        let mut input: Vec<u8> = Vec::new();
        put_bytes(&mut input, "home-proxy/v1/".as_bytes());
        put_bytes(&mut input, label.as_bytes());
        input.push(0);
        put_bytes(&mut input, self.bytes.as_slice());
        put_bytes(&mut input, parts);
        assert(input@ =~= derive_input(self@, label@, parts@));
        sha256_digest(input.as_slice())
    }

    /// The vector that masks packets to the owner of `session`.
    pub fn xor_key(&self, session: Guid) -> (key: XorKey)
        ensures
            key@ == derived(self@, "xor"@, session.bytes()).take(16),
    {
        let bytes = session.to_bytes();
        first_16(&self.derive("xor", bytes.as_slice()))
    }

    /// The key that signs packets from session `from` to session `to`.
    pub fn link_key(&self, from: Guid, to: Guid) -> (key: AuthKey)
        ensures
            key@ == derived(self@, "link"@, from.bytes() + to.bytes()),
    {
        let (from_bytes, to_bytes) = (from.to_bytes(), to.to_bytes());
        let mut parts: Vec<u8> = Vec::new();
        put_bytes(&mut parts, from_bytes.as_slice());
        put_bytes(&mut parts, to_bytes.as_slice());
        assert(parts@ =~= from.bytes() + to.bytes());
        self.derive("link", parts.as_slice())
    }

    /// The acquaintance port: vector and signing key, one for the pair, in both directions.
    pub fn bootstrap(&self) -> (keys: (XorKey, AuthKey))
        ensures
            keys.0@ == derived(self@, "bootstrap-xor"@, Seq::empty()).take(16),
            keys.1@ == derived(self@, "bootstrap-auth"@, Seq::empty()),
    {
        let none: [u8; 0] = [];
        assert(none@ =~= Seq::<u8>::empty());
        let xor = first_16(&self.derive("bootstrap-xor", none.as_slice()));
        let auth = self.derive("bootstrap-auth", none.as_slice());
        (xor, auth)
    }

    /// The MAC of a record.
    pub open spec fn rendezvous_mac(self, record: Seq<u8>) -> Seq<u8> {
        hmac_sha256(derived(self@, "rendezvous"@, Seq::empty()), record)@
    }

    /// The signature is that of the record.
    pub open spec fn signs(self, record: Seq<u8>, signature: Seq<u8>) -> bool {
        signature.len() == RENDEZVOUS_MAC_LEN && signature == self.rendezvous_mac(record).take(16)
    }

    /// Signature of a record.
    pub fn sign_rendezvous(&self, record: &[u8]) -> (signature: [u8; 16])
        ensures
            self.signs(record@, signature@),
    {
        let none: [u8; 0] = [];
        assert(none@ =~= Seq::<u8>::empty());
        let key = self.derive("rendezvous", none.as_slice());
        first_16(&hmac_sha256_mac(key.as_slice(), record))
    }

    /// The signature of a record is right.
    pub fn verify_rendezvous(&self, record: &[u8], signature: &[u8]) -> (right: bool)
        ensures
            right == self.signs(record@, signature@),
    {
        let none: [u8; 0] = [];
        assert(none@ =~= Seq::<u8>::empty());
        let key = self.derive("rendezvous", none.as_slice());
        signature.len() == RENDEZVOUS_MAC_LEN && hmac_sha256_verify(key.as_slice(), record, signature)
    }
}

/// Both members of a pair compute the same secret.
pub proof fn law_pair_secret_is_symmetric(a: Guid, b: Guid)
    ensures
        sha256(pair_input(a, b)) == sha256(pair_input(b, a)),
{
}

/// What one member of a pair signs is right at the other one, and no other bytes are.
pub proof fn law_signature_is_right_at_the_other_end(
    a: PairSecret,
    b: PairSecret,
    record: Seq<u8>,
    signature: Seq<u8>,
    other: Seq<u8>,
)
    requires
        a@ == b@,
        a.signs(record, signature),
    ensures
        b.signs(record, signature),
        b.signs(record, other) <==> other == signature,
{
}

/// Both members of a pair have the same secret: the digest of a name and of both GUIDs, the lower
/// one first.
pub proof fn law_the_secret_of_a_pair(a: Guid, b: Guid, one: PairSecret, other: PairSecret)
    requires
        call_ensures(PairSecret::new, (a, b), one),
        call_ensures(PairSecret::new, (b, a), other),
    ensures
        one@ == other@,
        a.value <= b.value ==> one@ == sha256(
            "home-proxy/pair/v1".spec_bytes() + a.bytes() + b.bytes(),
        )@,
{
}

/// Each key is the digest of its name, a zero, the secret of the pair and what it is for: the mask
/// that of a session, the signing key of a hole that of both sessions, the sender first.
pub proof fn law_keys_are_digests(
    pair: &PairSecret,
    from: Guid,
    to: Guid,
    mask: XorKey,
    key: AuthKey,
    shared: (XorKey, AuthKey),
)
    requires
        call_ensures(PairSecret::xor_key, (pair, to), mask),
        call_ensures(PairSecret::link_key, (pair, from, to), key),
        call_ensures(PairSecret::bootstrap, (pair,), shared),
    ensures
        ({
            let front = "home-proxy/v1/".spec_bytes();
            let of = |name: Seq<char>, parts: Seq<u8>|
                sha256(front + vstd::utf8::encode_utf8(name) + seq![0u8] + pair@ + parts)@;
            &&& mask@ == of("xor"@, to.bytes()).take(16)
            &&& key@ == of("link"@, from.bytes() + to.bytes())
            &&& shared.0@ == of("bootstrap-xor"@, Seq::empty()).take(16)
            &&& shared.1@ == of("bootstrap-auth"@, Seq::empty())
        }),
{
}

/// A record is right with the signature that was made of it with the same secret, and with no
/// other; a signature has 16 bytes.
pub proof fn law_signatures_are_of_their_records(
    pair: &PairSecret,
    other: &PairSecret,
    record: &[u8],
    signature: [u8; 16],
    shown: &[u8],
    right: bool,
)
    requires
        pair@ == other@,
        call_ensures(PairSecret::sign_rendezvous, (pair, record), signature),
        call_ensures(PairSecret::verify_rendezvous, (other, record, shown), right),
    ensures
        right <==> shown@ == signature@,
        right ==> shown@.len() == 16,
        signature@ == hmac_sha256(
            sha256(
                "home-proxy/v1/".spec_bytes() + vstd::utf8::encode_utf8("rendezvous"@) + seq![0u8]
                    + pair@ + Seq::<u8>::empty(),
            )@,
            record@,
        )@.take(16),
{
}

/// The name of a peer is the first eight characters of its GUID.
pub proof fn law_a_name_is_the_first_group(id: Guid, name: String, text: String)
    requires
        call_ensures(peer_name, (&id,), name),
        call_ensures(Guid::text, (id,), text),
    ensures
        name@ == text@.take(8),
        !name@.contains('-'),
{
    let t = guid_text(id.value);
    assert forall|i: int| 0 <= i < 8 implies name@[i] != '-' by {
        assert(name@[i] == t[i]);
        assert(t[i] == crate::guid::hex_at(id.value, i));
    }
}

} // verus!
