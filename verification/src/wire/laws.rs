//! Packets of a hole, byte by byte.

use super::write::{
    bytes_field, data_body, encode_data, encode_ordered, encode_wrapped, lemma_bytes_field, lite, message,
    ordered_body, wrapped_body,
};
use super::{body_tag, fields, first_field, only, parse, parsed_lite, present, unique, Fast, Field};
use crate::bytes::lemma_le_len;
use crate::codec::{encoded, law_mask_twice_restores_data, masked};
use crate::seal::{law_sealed_packet_is_authentic, sealed, SendKeys};
use crate::varint::varint;
use vstd::prelude::*;

verus! {

proof fn lemma_unmasked(keys: SendKeys, msg: Seq<u8>, after: Seq<u8>, before: Seq<u8>, n: usize)
    requires
        n == 24 + msg.len(),
        n <= before.len(),
        after == encoded(keys.xor@, keys.sealer.key(), keys.sealer.next(), msg) + before.skip(n as int),
    ensures
        masked(after.take(n as int), keys.xor@).skip(24) == msg,
        after.skip(n as int) == before.skip(n as int),
{
    let packet = sealed(keys.sealer.key(), keys.sealer.next(), msg);
    law_sealed_packet_is_authentic(keys.sealer.key(), keys.sealer.next(), msg);
    law_mask_twice_restores_data(packet, keys.xor@);
    lemma_le_len(keys.sealer.next() as nat, 8);
    assert(packet.len() == n);
    assert(after.take(n as int) =~= masked(packet, keys.xor@));
    assert(after.skip(n as int) =~= before.skip(n as int));
}

/// A data packet, byte by byte behind the mask and the signature: the number of a short message and
/// its length, the slot, the number of data and its length, the number of a payload and its length,
/// and the payload. What does not fit is not sent.
pub proof fn law_a_data_packet_byte_by_byte(slot: u32, payload: &[u8])
    requires
        slot > 0,
        payload@.len() > 0,
    ensures
        forall|keys: &mut SendKeys, out: &mut [u8], total: Option<usize>| #[trigger]
            call_ensures(encode_data, (slot, payload, keys, out), total) ==> {
                let body = seq![10u8] + varint(payload@.len()) + payload@;
                let inner = seq![8u8] + varint(slot as nat) + seq![26u8] + varint(body.len()) + body;
                let msg = seq![18u8] + varint(inner.len()) + inner;
                &&& total is Some <==> 24 + msg.len() <= (*out)@.len() && keys.sealer.next() < u64::MAX
                &&& total matches Some(n) ==> {
                    &&& n == 24 + msg.len()
                    &&& masked(final(out)@.take(n as int), keys.xor@).skip(24) == msg
                    &&& final(out)@.skip(n as int) == (*out)@.skip(n as int)
                    &&& final(keys).sealer.next() == keys.sealer.next() + 1
                }
                &&& total is None ==> final(keys).sealer.next() == keys.sealer.next()
            },
{
    assert forall|keys: &mut SendKeys, out: &mut [u8], total: Option<usize>| #[trigger]
        call_ensures(encode_data, (slot, payload, keys, out), total) implies {
        let body = seq![10u8] + varint(payload@.len()) + payload@;
        let inner = seq![8u8] + varint(slot as nat) + seq![26u8] + varint(body.len()) + body;
        let msg = seq![18u8] + varint(inner.len()) + inner;
        &&& total is Some <==> 24 + msg.len() <= (*out)@.len() && keys.sealer.next() < u64::MAX
        &&& total matches Some(n) ==> {
            &&& n == 24 + msg.len()
            &&& masked(final(out)@.take(n as int), keys.xor@).skip(24) == msg
            &&& final(out)@.skip(n as int) == (*out)@.skip(n as int)
            &&& final(keys).sealer.next() == keys.sealer.next() + 1
        }
        &&& total is None ==> final(keys).sealer.next() == keys.sealer.next()
    } by {
        let body = seq![10u8] + varint(payload@.len()) + payload@;
        let inner = seq![8u8] + varint(slot as nat) + seq![26u8] + varint(body.len()) + body;
        let msg = seq![18u8] + varint(inner.len()) + inner;
        assert(data_body(payload@) =~= body);
        assert(lite(slot, 26, body) =~= inner);
        assert(message(slot, 26, body) =~= msg);
        if total is Some {
            lemma_unmasked(*keys, msg, final(out)@, (*out)@, total->0);
        }
    }
}

/// A packet with a number in its flow, byte by byte: as a data packet, but its body is the flow, the
/// number and the payload, each behind a number of its own.
pub proof fn law_an_ordered_packet_byte_by_byte(slot: u32, flow: u32, seq: u64, payload: &[u8])
    requires
        slot > 0,
        flow > 0,
        seq > 0,
        payload@.len() > 0,
    ensures
        forall|keys: &mut SendKeys, out: &mut [u8], total: Option<usize>| #[trigger]
            call_ensures(encode_ordered, (slot, flow, seq, payload, keys, out), total) ==> {
                let body = seq![8u8] + varint(flow as nat) + seq![16u8] + varint(seq as nat) + seq![26u8] + varint(
                    payload@.len(),
                ) + payload@;
                let inner = seq![8u8] + varint(slot as nat) + seq![66u8] + varint(body.len()) + body;
                let msg = seq![18u8] + varint(inner.len()) + inner;
                &&& total is Some <==> 24 + msg.len() <= (*out)@.len() && keys.sealer.next() < u64::MAX
                &&& total matches Some(n) ==> {
                    &&& n == 24 + msg.len()
                    &&& masked(final(out)@.take(n as int), keys.xor@).skip(24) == msg
                    &&& final(out)@.skip(n as int) == (*out)@.skip(n as int)
                    &&& final(keys).sealer.next() == keys.sealer.next() + 1
                }
                &&& total is None ==> final(keys).sealer.next() == keys.sealer.next()
            },
{
    assert forall|keys: &mut SendKeys, out: &mut [u8], total: Option<usize>| #[trigger]
        call_ensures(encode_ordered, (slot, flow, seq, payload, keys, out), total) implies {
        let body = seq![8u8] + varint(flow as nat) + seq![16u8] + varint(seq as nat) + seq![26u8] + varint(
                    payload@.len(),
                ) + payload@;
        let inner = seq![8u8] + varint(slot as nat) + seq![66u8] + varint(body.len()) + body;
        let msg = seq![18u8] + varint(inner.len()) + inner;
        &&& total is Some <==> 24 + msg.len() <= (*out)@.len() && keys.sealer.next() < u64::MAX
        &&& total matches Some(n) ==> {
            &&& n == 24 + msg.len()
            &&& masked(final(out)@.take(n as int), keys.xor@).skip(24) == msg
            &&& final(out)@.skip(n as int) == (*out)@.skip(n as int)
            &&& final(keys).sealer.next() == keys.sealer.next() + 1
        }
        &&& total is None ==> final(keys).sealer.next() == keys.sealer.next()
    } by {
        let body = seq![8u8] + varint(flow as nat) + seq![16u8] + varint(seq as nat) + seq![26u8] + varint(
                    payload@.len(),
                ) + payload@;
        let inner = seq![8u8] + varint(slot as nat) + seq![66u8] + varint(body.len()) + body;
        let msg = seq![18u8] + varint(inner.len()) + inner;
        assert(ordered_body(flow, seq, payload@) =~= body);
        assert(lite(slot, 66, body) =~= inner);
        assert(message(slot, 66, body) =~= msg);
        if total is Some {
            lemma_unmasked(*keys, msg, final(out)@, (*out)@, total->0);
        }
    }
}

/// A packet of a client behind a relay, byte by byte: as a data packet, but its body is the number,
/// the payload, the client and the flow, each behind a number of its own.
pub proof fn law_a_wrapped_packet_byte_by_byte(slot: u32, seq: u64, payload: &[u8], client_id: u32, flow: u32)
    requires
        slot > 0,
        seq > 0,
        payload@.len() > 0,
        client_id > 0,
    ensures
        forall|keys: &mut SendKeys, out: &mut [u8], total: Option<usize>| #[trigger]
            call_ensures(encode_wrapped, (slot, seq, payload, client_id, Some(flow), keys, out), total) ==> {
                let body = seq![8u8] + varint(seq as nat) + seq![18u8] + varint(payload@.len()) + payload@ + seq![
                    24u8,
                ] + varint(client_id as nat) + seq![32u8] + varint(flow as nat);
                let inner = seq![8u8] + varint(slot as nat) + seq![58u8] + varint(body.len()) + body;
                let msg = seq![18u8] + varint(inner.len()) + inner;
                &&& total is Some <==> 24 + msg.len() <= (*out)@.len() && keys.sealer.next() < u64::MAX
                &&& total matches Some(n) ==> {
                    &&& n == 24 + msg.len()
                    &&& masked(final(out)@.take(n as int), keys.xor@).skip(24) == msg
                    &&& final(out)@.skip(n as int) == (*out)@.skip(n as int)
                    &&& final(keys).sealer.next() == keys.sealer.next() + 1
                }
                &&& total is None ==> final(keys).sealer.next() == keys.sealer.next()
            },
{
    assert forall|keys: &mut SendKeys, out: &mut [u8], total: Option<usize>| #[trigger]
        call_ensures(encode_wrapped, (slot, seq, payload, client_id, Some(flow), keys, out), total) implies {
        let body = seq![8u8] + varint(seq as nat) + seq![18u8] + varint(payload@.len()) + payload@ + seq![
                    24u8,
                ] + varint(client_id as nat) + seq![32u8] + varint(flow as nat);
        let inner = seq![8u8] + varint(slot as nat) + seq![58u8] + varint(body.len()) + body;
        let msg = seq![18u8] + varint(inner.len()) + inner;
        &&& total is Some <==> 24 + msg.len() <= (*out)@.len() && keys.sealer.next() < u64::MAX
        &&& total matches Some(n) ==> {
            &&& n == 24 + msg.len()
            &&& masked(final(out)@.take(n as int), keys.xor@).skip(24) == msg
            &&& final(out)@.skip(n as int) == (*out)@.skip(n as int)
            &&& final(keys).sealer.next() == keys.sealer.next() + 1
        }
        &&& total is None ==> final(keys).sealer.next() == keys.sealer.next()
    } by {
        let body = seq![8u8] + varint(seq as nat) + seq![18u8] + varint(payload@.len()) + payload@ + seq![
                    24u8,
                ] + varint(client_id as nat) + seq![32u8] + varint(flow as nat);
        let inner = seq![8u8] + varint(slot as nat) + seq![58u8] + varint(body.len()) + body;
        let msg = seq![18u8] + varint(inner.len()) + inner;
        assert(wrapped_body(seq, payload@, client_id, Some(flow)) =~= body);
        assert(lite(slot, 58, body) =~= inner);
        assert(message(slot, 58, body) =~= msg);
        if total is Some {
            lemma_unmasked(*keys, msg, final(out)@, (*out)@, total->0);
        }
    }
}

/// What is zero or empty takes no bytes: a packet of the slot zero, the flow zero, the number zero
/// and without a payload is the number of a short message, its length, the number of its kind, and
/// a length of zero.
pub proof fn law_zeros_take_no_bytes(none: &[u8])
    requires
        none@.len() == 0,
    ensures
        forall|keys: &mut SendKeys, out: &mut [u8], total: Option<usize>| #[trigger]
            call_ensures(encode_data, (0u32, none, keys, out), total) && total is Some
                ==> masked(final(out)@.take(total->0 as int), keys.xor@).skip(24) == seq![18u8, 2, 26, 0],
        forall|keys: &mut SendKeys, out: &mut [u8], total: Option<usize>| #[trigger]
            call_ensures(encode_ordered, (0u32, 0u32, 0u64, none, keys, out), total) && total is Some
                ==> masked(final(out)@.take(total->0 as int), keys.xor@).skip(24) == seq![18u8, 2, 66, 0],
        forall|keys: &mut SendKeys, out: &mut [u8], total: Option<usize>| #[trigger]
            call_ensures(encode_wrapped, (0u32, 0u64, none, 0u32, None::<u32>, keys, out), total)
                && total is Some ==> masked(final(out)@.take(total->0 as int), keys.xor@).skip(24)
                == seq![18u8, 2, 58, 0],
{
    let body = Seq::<u8>::empty();
    assert(varint(0) == seq![0u8]);
    assert(varint(2) == seq![2u8]);
    assert(data_body(none@) =~= body);
    assert(ordered_body(0, 0, none@) =~= body);
    assert(wrapped_body(0, none@, 0, None) =~= body);
    assert(lite(0, 26, body) =~= seq![26u8, 0]);
    assert(lite(0, 66, body) =~= seq![66u8, 0]);
    assert(lite(0, 58, body) =~= seq![58u8, 0]);
    assert(message(0, 26, body) =~= seq![18u8, 2, 26, 0]);
    assert(message(0, 66, body) =~= seq![18u8, 2, 66, 0]);
    assert(message(0, 58, body) =~= seq![18u8, 2, 58, 0]);
    assert forall|keys: &mut SendKeys, out: &mut [u8], total: Option<usize>| #[trigger]
        call_ensures(encode_data, (0u32, none, keys, out), total) && total is Some implies masked(
        final(out)@.take(total->0 as int),
        keys.xor@,
    ).skip(24) == seq![18u8, 2, 26, 0] by {
        lemma_unmasked(*keys, seq![18u8, 2, 26, 0], final(out)@, (*out)@, total->0);
    }
    assert forall|keys: &mut SendKeys, out: &mut [u8], total: Option<usize>| #[trigger]
        call_ensures(encode_ordered, (0u32, 0u32, 0u64, none, keys, out), total) && total is Some implies masked(
        final(out)@.take(total->0 as int),
        keys.xor@,
    ).skip(24) == seq![18u8, 2, 66, 0] by {
        lemma_unmasked(*keys, seq![18u8, 2, 66, 0], final(out)@, (*out)@, total->0);
    }
    assert forall|keys: &mut SendKeys, out: &mut [u8], total: Option<usize>| #[trigger]
        call_ensures(encode_wrapped, (0u32, 0u64, none, 0u32, None::<u32>, keys, out), total)
            && total is Some implies masked(final(out)@.take(total->0 as int), keys.xor@).skip(24)
        == seq![18u8, 2, 58, 0] by {
        lemma_unmasked(*keys, seq![18u8, 2, 58, 0], final(out)@, (*out)@, total->0);
    }
}

/// Only a short message is read here: its first byte is 18.
pub proof fn law_short_messages_start_with_18(buf: &[u8], fast: Option<Fast>)
    requires
        call_ensures(parse, (buf,), fast),
    ensures
        fast is Some ==> buf@.len() > 0 && buf@[0] == 18,
{
    if fast is Some {
        let top = fields(buf@)->0;
        assert(buf@.len() > 0);
        assert(top[0] == (first_field(buf@)->0).0);
    }
}

/// Messages of the frequent kind are read in whatever order their fields stand, but only such that
/// hold nothing else: a slot at most, exactly one body of the three kinds, and in it each of the
/// fields of that kind at most once. Everything else is left to be read as a message.
pub proof fn law_only_frequent_messages_are_read(
    buf: &[u8],
    fast: Option<Fast<'_>>,
    inner: Seq<u8>,
    fs: Seq<Field>,
    i: int,
    j: int,
)
    requires
        call_ensures(parse, (buf,), fast),
        0 < inner.len() <= u64::MAX,
        buf@ == seq![18u8] + varint(inner.len()) + inner,
        fields(inner) == Some(fs),
        0 <= i < fs.len(),
        0 <= j < fs.len(),
    ensures
        i != j && fs[i].tag == fs[j].tag ==> fast is None,
        fs[i].tag != 8 && fs[i].tag != 26 && fs[i].tag != 58 && fs[i].tag != 66 ==> fast is None,
        i != j && fs[i].tag != 8 && fs[j].tag != 8 ==> fast is None,
        fs.len() == 1 && fs[0].tag == 8 ==> fast is None,
        fast matches Some(f) ==> {
            &&& fs[i].tag == 26 ==> f is Data
            &&& fs[i].tag == 58 ==> f is Wrapped
            &&& fs[i].tag == 66 ==> f is Ordered
        },
{
    let none = Seq::<u8>::empty();
    lemma_bytes_field(18, inner, none);
    let top = seq![Field { tag: 18, number: 0, bytes: inner }];
    assert(bytes_field(18, inner) + none =~= buf@);
    assert(fields(none) == Some(Seq::<Field>::empty()));
    assert(top + Seq::<Field>::empty() =~= top);
    assert(fields(buf@) == Some(top));
    if fast is Some {
        assert(parsed_lite(fs) is Some);
        let tags = seq![8u8, 26, 58, 66];
        assert(unique(fs) && only(fs, tags));
        assert(tags.contains(fs[i].tag));
        assert(tags.contains(fs[j].tag));
        if i < j {
            assert(fs[i].tag != fs[j].tag);
        } else if j < i {
            assert(fs[j].tag != fs[i].tag);
        }
        assert(present(fs, fs[i].tag) && present(fs, fs[j].tag));
        let t = body_tag(fs)->0;
        assert(present(fs, t));
        let k = choose|k: int| 0 <= k < fs.len() && (#[trigger] fs[k]).tag == t;
        assert(fs[k].tag == t);
    }
}

} // verus!
