//! A packet on the wire: signature and message, the first bytes masked.
//!
//! The mask is not a protection; authenticity comes from the signature. It keeps the beginning
//! of a packet from being recognised, and gives every hole a look of its own.

use crate::auth::AUTH_LEN;
use crate::bytes::{lemma_be_index, pow256};
use crate::guid::Guid;
use crate::seal::{
    authentic, counter_in, law_sealed_packet_is_authentic, sealed, RecvKeys, SendKeys,
};
use crate::xor::{law_xor_twice_restores_data, xor_in_place, xored, XorKey};
use vstd::arithmetic::div_mod::lemma_div_denominator;
use vstd::prelude::*;

verus! {

/// How many first bytes of a packet are masked: the signature and what it covers.
pub const MASKED_PREFIX: usize = 152;

/// A packet with its first [`MASKED_PREFIX`] bytes XORed with the vector.
pub open spec fn masked(data: Seq<u8>, key: Seq<u8>) -> Seq<u8> {
    Seq::new(
        data.len(),
        |i: int|
            if i < MASKED_PREFIX {
                data[i] ^ key[i % 16]
            } else {
                data[i]
            },
    )
}

/// A new random vector.
pub fn random_key() -> (key: XorKey)
    ensures
        key@[6] / 16 == 4,
        key@[8] / 64 == 2,
{
    let guid = Guid::random();
    proof {
        lemma_version_bytes(guid);
    }
    guid.to_bytes()
}

/// The version and the variant of a GUID in its bytes.
pub proof fn lemma_version_bytes(guid: Guid)
    requires
        (guid.value / 0x1000_0000_0000_0000_0000) % 16 == 4,
        (guid.value / 0x4000_0000_0000_0000) % 4 == 2,
    ensures
        guid.bytes()[6] / 16 == 4,
        guid.bytes()[8] / 64 == 2,
{
    let v = guid.value as nat;
    lemma_powers();
    lemma_be_index(v, 16, 9);
    lemma_be_index(v, 16, 7);
    let (a, b) = (v / 0x100_0000_0000_0000_0000, v / 0x100_0000_0000_0000);
    lemma_div_denominator(v as int, 0x100_0000_0000_0000_0000, 16);
    lemma_div_denominator(v as int, 0x100_0000_0000_0000, 64);
    assert(guid.bytes()[6] == a % 256);
    assert(guid.bytes()[8] == b % 256);
    lemma_upper_bits(a, b);
}

proof fn lemma_upper_bits(a: nat, b: nat)
    requires
        a / 16 % 16 == 4,
        b / 64 % 4 == 2,
    ensures
        a % 256 / 16 == 4,
        b % 256 / 64 == 2,
{
}

proof fn lemma_powers()
    ensures
        pow256(7) == 0x100_0000_0000_0000,
        pow256(9) == 0x100_0000_0000_0000_0000,
{
    reveal_with_fuel(pow256, 10);
}

/// Masks the first [`MASKED_PREFIX`] bytes, or takes the mask off.
pub fn mask(data: &mut [u8], key: &XorKey)
    ensures
        final(data)@ == masked(old(data)@, key@),
{
    let len: usize = data.len();
    let cut: usize = if len < MASKED_PREFIX {
        len
    } else {
        MASKED_PREFIX
    };
    let (head, _tail) = data.split_at_mut(cut);
    xor_in_place(head, key);
    assert(data@ =~= masked(old(data)@, key@));
}

/// Taking the mask off gives back what was masked.
pub proof fn law_mask_twice_restores_data(data: Seq<u8>, key: Seq<u8>)
    ensures
        masked(masked(data, key), key) == data,
{
    law_xor_twice_restores_data(data, key);
    assert forall|i: int| 0 <= i < data.len() implies #[trigger] masked(masked(data, key), key)[i] == data[i] by {
        assert(xored(xored(data, key), key)[i] == data[i]);
    }
    assert(masked(masked(data, key), key) =~= data);
}

/// A packet on the wire: sealed, then masked.
pub open spec fn encoded(xor: Seq<u8>, key: Seq<u8>, counter: u64, message: Seq<u8>) -> Seq<u8> {
    masked(sealed(key, counter, message), xor)
}

/// Signs and masks a message.
pub fn encode(message: &Vec<u8>, keys: &mut SendKeys) -> (packet: Vec<u8>)
    requires
        old(keys).sealer.next() < u64::MAX,
        message@.len() + AUTH_LEN <= usize::MAX,
    ensures
        packet@ == encoded(old(keys).xor@, old(keys).sealer.key(), old(keys).sealer.next(), message@),
        packet@.len() == AUTH_LEN + message@.len(),
        final(keys).xor == old(keys).xor,
        final(keys).sealer.key() == old(keys).sealer.key(),
        final(keys).sealer.next() == old(keys).sealer.next() + 1,
{
    let mut buf: Vec<u8> = keys.sealer.seal_vec(message);
    mask(buf.as_mut_slice(), &keys.xor);
    buf
}

/// The packet under its mask is signed with the key, and the window lets its counter pass.
pub open spec fn acceptable(keys: RecvKeys, data: Seq<u8>) -> bool {
    let packet = masked(data, keys.xor@);
    authentic(keys.opener.key(), packet) && keys.opener.passes(counter_in(packet))
}

/// Takes the mask off and checks the signature: the message, or `None` for a packet that is
/// foreign, forged or repeated.
pub fn decode(data: Vec<u8>, keys: &mut RecvKeys) -> (message: Option<Vec<u8>>)
    ensures
        message is Some <==> acceptable(*old(keys), data@),
        message matches Some(m) ==> m@ == masked(data@, old(keys).xor@).skip(24),
        final(keys).xor == old(keys).xor,
        final(keys).opener.key() == old(keys).opener.key(),
        final(keys).opener.window() is Some <==> old(keys).opener.window() is Some,
        message is None ==> final(keys).opener.window() == old(keys).opener.window(),
        message is Some ==> (old(keys).opener.window() matches Some(w) ==> w.accepted(
            counter_in(masked(data@, old(keys).xor@)),
            final(keys).opener.window()->0,
        )),
{
    let mut packet = data;
    mask(packet.as_mut_slice(), &keys.xor);
    match keys.opener.open(packet.as_slice()) {
        Some(_) => {
            assert(packet@.skip(24) =~= packet@.subrange(24, packet@.len() as int));
            Some(vstd::slice::slice_to_vec(vstd::slice::slice_subrange(packet.as_slice(), AUTH_LEN, packet.len())))
        },
        None => None,
    }
}

/// What one side encodes the other decodes: a packet is acceptable to keys with the same vector
/// and signing key whose window lets its counter pass, and under its mask lies the message.
pub proof fn law_decode_reads_what_encode_wrote(keys: RecvKeys, counter: u64, message: Seq<u8>)
    requires
        keys.opener.passes(counter),
    ensures
        ({
            let data = encoded(keys.xor@, keys.opener.key(), counter, message);
            &&& acceptable(keys, data)
            &&& masked(data, keys.xor@).skip(24) == message
        }),
{
    law_mask_twice_restores_data(sealed(keys.opener.key(), counter, message), keys.xor@);
    law_sealed_packet_is_authentic(keys.opener.key(), counter, message);
}

/// The first 152 bytes are masked with the 16 bytes of the key, over and over; the rest stays.
pub proof fn law_the_first_152_bytes_are_masked(key: &XorKey, i: int)
    ensures
        forall|data: &mut [u8]| #[trigger]
            call_ensures(mask, (data, key), ()) ==> {
                &&& final(data)@.len() == (*data)@.len()
                &&& 0 <= i < (*data)@.len() && i < 152 ==> final(data)@[i] == (*data)@[i] ^ key@[i % 16]
                &&& 152 <= i < (*data)@.len() ==> final(data)@[i] == (*data)@[i]
            },
{
}

/// A message that is encoded is 24 bytes longer, uses up a counter, and is read again with the keys
/// of the other end, as long as its counter is fresh there. What is not read changes nothing.
pub proof fn law_messages_are_read_with_the_keys_of_the_other_end(message: &Vec<u8>, data: Vec<u8>)
    requires
        message@.len() + 24 <= usize::MAX,
    ensures
        forall|send: &mut SendKeys, packet: Vec<u8>, recv: &mut RecvKeys, read: Option<Vec<u8>>|
            #![trigger call_ensures(encode, (message, send), packet), call_ensures(decode, (packet, recv), read)]
            call_ensures(encode, (message, send), packet) && call_ensures(
                decode,
                (packet, recv),
                read,
            ) && send.sealer.next() < u64::MAX && recv.xor@ == send.xor@ && recv.opener.key()
                == send.sealer.key() && recv.opener.passes(send.sealer.next()) ==> {
                &&& packet@.len() == message@.len() + 24
                &&& final(send).sealer.next() == send.sealer.next() + 1
                &&& read matches Some(m) && m@ == message@
            },
        forall|recv: &mut RecvKeys, read: Option<Vec<u8>>| #[trigger]
            call_ensures(decode, (data, recv), read) ==> {
                &&& data@.len() < 24 ==> read is None
                &&& read matches Some(m) ==> m@.len() == data@.len() - 24
                &&& read is None ==> final(recv).opener.window() == recv.opener.window()
            },
{
    assert forall|send: &mut SendKeys, packet: Vec<u8>, recv: &mut RecvKeys, read: Option<Vec<u8>>|
        #![trigger call_ensures(encode, (message, send), packet), call_ensures(decode, (packet, recv), read)]
        call_ensures(encode, (message, send), packet) && call_ensures(decode, (packet, recv), read)
            && send.sealer.next() < u64::MAX && recv.xor@ == send.xor@ && recv.opener.key()
            == send.sealer.key() && recv.opener.passes(send.sealer.next()) implies {
        &&& packet@.len() == message@.len() + 24
        &&& final(send).sealer.next() == send.sealer.next() + 1
        &&& read matches Some(m) && m@ == message@
    } by {
        let sent = sealed(send.sealer.key(), send.sealer.next(), message@);
        law_sealed_packet_is_authentic(send.sealer.key(), send.sealer.next(), message@);
        law_mask_twice_restores_data(sent, send.xor@);
        assert(masked(packet@, recv.xor@) == sent);
    }
}

} // verus!
