//! Writing data packets straight into the caller's buffer.

use crate::auth::AUTH_LEN;
use crate::codec::{encoded, mask, masked};
use crate::seal::SendKeys;
use crate::varint::{law_varint_round_trip, varint, varint_len};
use crate::wire::{
    body_tag, bytes, field, fields, low32, number, only, parsed, parsed_body, parsed_lite,
    present, unique, FastModel, Field, DATA_PAYLOAD, LITE_DATA, LITE_ORDERED, LITE_SLOT,
    LITE_WRAPPED, ORDERED_FLOW, ORDERED_PAYLOAD, ORDERED_SEQ, PEER_LITE, WRAPPED_CLIENT,
    WRAPPED_FLOW, WRAPPED_PAYLOAD, WRAPPED_SEQ,
};
use vstd::prelude::*;

verus! {

/// A number as a field; zero is left out.
pub open spec fn number_field(tag: u8, v: u64) -> Seq<u8> {
    if v == 0 {
        Seq::empty()
    } else {
        seq![tag] + varint(v as nat)
    }
}

/// Bytes as a field; an empty value is left out.
pub open spec fn bytes_field(tag: u8, data: Seq<u8>) -> Seq<u8> {
    if data.len() == 0 {
        Seq::empty()
    } else {
        seq![tag] + varint(data.len()) + data
    }
}

/// An optional number as a field; where it is given it is written, zero too.
pub open spec fn optional_field(tag: u8, v: Option<u32>) -> Seq<u8> {
    match v {
        Some(v) => seq![tag] + varint(v as nat),
        None => Seq::empty(),
    }
}

pub open spec fn data_body(payload: Seq<u8>) -> Seq<u8> {
    bytes_field(DATA_PAYLOAD, payload)
}

pub open spec fn wrapped_body(seq: u64, payload: Seq<u8>, client_id: u32, flow: Option<u32>) -> Seq<u8> {
    number_field(WRAPPED_SEQ, seq) + bytes_field(WRAPPED_PAYLOAD, payload) + number_field(
        WRAPPED_CLIENT,
        client_id as u64,
    ) + optional_field(WRAPPED_FLOW, flow)
}

pub open spec fn ordered_body(flow: u32, seq: u64, payload: Seq<u8>) -> Seq<u8> {
    number_field(ORDERED_FLOW, flow as u64) + number_field(ORDERED_SEQ, seq) + bytes_field(
        ORDERED_PAYLOAD,
        payload,
    )
}

/// A `Lite` message with a slot and a body.
pub open spec fn lite(slot: u32, tag: u8, body: Seq<u8>) -> Seq<u8> {
    number_field(LITE_SLOT, slot as u64) + seq![tag] + varint(body.len()) + body
}

/// A message that holds a `Lite`.
pub open spec fn message(slot: u32, tag: u8, body: Seq<u8>) -> Seq<u8> {
    seq![PEER_LITE] + varint(lite(slot, tag, body).len()) + lite(slot, tag, body)
}

/// `buf` with `data` written at `at`.
pub open spec fn written(buf: Seq<u8>, at: int, data: Seq<u8>) -> Seq<u8> {
    buf.take(at) + data + buf.skip(at + data.len())
}

proof fn lemma_written_twice(buf: Seq<u8>, at: int, a: Seq<u8>, b: Seq<u8>)
    requires
        0 <= at,
        at + a.len() + b.len() <= buf.len(),
    ensures
        written(written(buf, at, a), at + a.len(), b) == written(buf, at, a + b),
{
    assert(written(written(buf, at, a), at + a.len(), b) =~= written(buf, at, a + b));
}

/// The message was signed and masked into the beginning of the buffer, if it fits there and the
/// counters are not used up; `total` is its length.
pub open spec fn encodes(
    msg: Seq<u8>,
    keys: SendKeys,
    keys_after: SendKeys,
    out: Seq<u8>,
    out_after: Seq<u8>,
    total: Option<usize>,
) -> bool {
    &&& total is Some <==> AUTH_LEN + msg.len() <= out.len() && keys.sealer.next() < u64::MAX
    &&& total matches Some(n) ==> {
        &&& n == AUTH_LEN + msg.len()
        &&& out_after == encoded(keys.xor@, keys.sealer.key(), keys.sealer.next(), msg) + out.skip(n as int)
        &&& keys_after.sealer.next() == keys.sealer.next() + 1
    }
    &&& total is None ==> keys_after.sealer.next() == keys.sealer.next()
    &&& keys_after.xor == keys.xor
    &&& keys_after.sealer.key() == keys.sealer.key()
    &&& out_after.len() == out.len()
}

/// Writes one byte; the position behind it.
fn put_byte(out: &mut [u8], at: usize, b: u8) -> (end: usize)
    requires
        at < old(out)@.len(),
    ensures
        end == at + 1,
        final(out)@ == written(old(out)@, at as int, seq![b]),
{
    let size: usize = out.len();
    out[at] = b;
    assert(out@ =~= written(old(out)@, at as int, seq![b]));
    at + 1
}

/// Writes a number; the position behind it.
fn put_varint(out: &mut [u8], at: usize, v: u64) -> (end: usize)
    requires
        at + varint(v as nat).len() <= old(out)@.len(),
    ensures
        end == at + varint(v as nat).len(),
        final(out)@ == written(old(out)@, at as int, varint(v as nat)),
{
    let size: usize = out.len();
    let ghost start = out@;
    let ghost mut done: Seq<u8> = Seq::empty();
    let mut rest: u64 = v;
    let mut pos: usize = at;
    assert(written(start, at as int, done) =~= start);
    proof {
        law_varint_round_trip(v, Seq::empty());
    }
    while rest >= 0x80
        invariant
            pos == at + done.len(),
            done + varint(rest as nat) == varint(v as nat),
            at + varint(v as nat).len() <= start.len(),
            out@ == written(start, at as int, done),
            start.len() <= usize::MAX,
        decreases rest,
    {
        let b: u8 = (rest % 128 + 128) as u8;
        proof {
            law_varint_round_trip(rest / 128, Seq::empty());
            assert(varint(rest as nat) == seq![b] + varint((rest / 128) as nat));
            assert(done + varint(rest as nat) =~= done.push(b) + varint((rest / 128) as nat));
            lemma_written_twice(start, at as int, done, seq![b]);
            assert(done + seq![b] =~= done.push(b));
            done = done.push(b);
        }
        pos = put_byte(out, pos, b);
        rest = rest / 128;
    }
    proof {
        assert(varint(rest as nat) =~= seq![rest as u8]);
        lemma_written_twice(start, at as int, done, seq![rest as u8]);
    }
    put_byte(out, pos, rest as u8)
}

/// Writes bytes; the position behind them.
fn put_data(out: &mut [u8], at: usize, data: &[u8]) -> (end: usize)
    requires
        at + data@.len() <= old(out)@.len(),
    ensures
        end == at + data@.len(),
        final(out)@ == written(old(out)@, at as int, data@),
{
    let size: usize = out.len();
    let ghost start = out@;
    let mut i: usize = 0;
    while i < data.len()
        invariant
            i <= data@.len(),
            at + data@.len() <= start.len() == out@.len() == size,
            forall|k: int| 0 <= k < start.len() ==> #[trigger] out@[k] == if at <= k < at + i {
                data@[k - at]
            } else {
                start[k]
            },
        decreases data@.len() - i,
    {
        out[at + i] = data[i];
        i += 1;
    }
    assert(out@ =~= written(start, at as int, data@));
    at + data.len()
}

fn put_number_field(out: &mut [u8], at: usize, tag: u8, v: u64) -> (end: usize)
    requires
        at + number_field(tag, v).len() <= old(out)@.len(),
    ensures
        end == at + number_field(tag, v).len(),
        final(out)@ == written(old(out)@, at as int, number_field(tag, v)),
{
    if v == 0 {
        assert(written(out@, at as int, Seq::empty()) =~= out@);
        at
    } else {
        proof {
            law_varint_round_trip(v, Seq::empty());
            lemma_written_twice(out@, at as int, seq![tag], varint(v as nat));
        }
        let pos: usize = put_byte(out, at, tag);
        put_varint(out, pos, v)
    }
}

fn put_bytes_field(out: &mut [u8], at: usize, tag: u8, data: &[u8]) -> (end: usize)
    requires
        at + bytes_field(tag, data@).len() <= old(out)@.len(),
    ensures
        end == at + bytes_field(tag, data@).len(),
        final(out)@ == written(old(out)@, at as int, bytes_field(tag, data@)),
{
    if data.len() == 0 {
        assert(written(out@, at as int, Seq::empty()) =~= out@);
        at
    } else {
        let ghost n = varint(data@.len());
        proof {
            law_varint_round_trip(data.len() as u64, Seq::empty());
            lemma_written_twice(out@, at as int, seq![tag], n);
            lemma_written_twice(out@, at as int, seq![tag] + n, data@);
        }
        let pos: usize = put_byte(out, at, tag);
        let pos: usize = put_varint(out, pos, data.len() as u64);
        put_data(out, pos, data)
    }
}

fn put_optional_field(out: &mut [u8], at: usize, tag: u8, v: Option<u32>) -> (end: usize)
    requires
        at + optional_field(tag, v).len() <= old(out)@.len(),
    ensures
        end == at + optional_field(tag, v).len(),
        final(out)@ == written(old(out)@, at as int, optional_field(tag, v)),
{
    match v {
        Some(v) => {
            proof {
                law_varint_round_trip(v as u64, Seq::empty());
                lemma_written_twice(out@, at as int, seq![tag], varint(v as nat));
            }
            let pos: usize = put_byte(out, at, tag);
            put_varint(out, pos, v as u64)
        },
        None => {
            assert(written(out@, at as int, Seq::empty()) =~= out@);
            at
        },
    }
}

/// The length of bytes as a field.
fn bytes_field_len(len: usize) -> (n: u128)
    ensures
        forall|tag: u8, data: Seq<u8>| data.len() == len ==> n == (#[trigger] bytes_field(tag, data)).len(),
        n <= len + 11,
{
    if len == 0 {
        0
    } else {
        1 + varint_len(len as u64) as u128 + len as u128
    }
}

/// The length of a number as a field.
fn varint_field_len(v: u64) -> (n: u128)
    ensures
        forall|tag: u8| n == (#[trigger] number_field(tag, v)).len(),
        n <= 11,
{
    if v == 0 {
        0
    } else {
        1 + varint_len(v) as u128
    }
}

/// The length of an optional number as a field.
fn optional_field_len(v: Option<u32>) -> (n: u128)
    ensures
        forall|tag: u8| n == (#[trigger] optional_field(tag, v)).len(),
        n <= 11,
{
    match v {
        Some(v) => 1 + varint_len(v as u64) as u128,
        None => 0,
    }
}

/// Writes everything of a message before its body, if the message fits behind the room for the
/// signature; the position of the body.
fn put_lite_head(out: &mut [u8], slot: u32, tag: u8, body_len: u128, Ghost(body): Ghost<Seq<u8>>) -> (at: Option<usize>)
    requires
        body.len() == body_len,
        body_len < 0x1_0000_0000_0000_0100,
    ensures
        at is Some <==> AUTH_LEN + message(slot, tag, body).len() <= old(out)@.len(),
        at is None ==> final(out)@ == old(out)@,
        at matches Some(pos) ==> {
            &&& pos + body.len() == AUTH_LEN + message(slot, tag, body).len()
            &&& written(final(out)@, pos as int, body) == written(
                old(out)@,
                AUTH_LEN as int,
                message(slot, tag, body),
            )
            &&& final(out)@.len() == old(out)@.len()
        },
{
    let size: usize = out.len();
    if body_len > size as u128 {
        return None;
    }
    let head_len: u128 = varint_field_len(slot as u64) + 1 + varint_len(body_len as u64) as u128;
    let lite_len: u128 = head_len + body_len;
    assert(lite_len == lite(slot, tag, body).len());
    if lite_len > size as u128 {
        return None;
    }
    let total: u128 = AUTH_LEN as u128 + 1 + varint_len(lite_len as u64) as u128 + lite_len;
    assert(total == AUTH_LEN + message(slot, tag, body).len());
    if total > size as u128 {
        return None;
    }
    let ghost start = out@;
    let ghost p0 = AUTH_LEN as int;
    let ghost a = seq![PEER_LITE];
    let ghost b = varint(lite_len as nat);
    let ghost c = number_field(LITE_SLOT, slot as u64);
    let ghost d = seq![tag];
    let ghost e = varint(body_len as nat);
    let pos: usize = put_byte(out, AUTH_LEN, PEER_LITE);
    let pos: usize = put_varint(out, pos, lite_len as u64);
    proof {
        lemma_written_twice(start, p0, a, b);
    }
    let pos: usize = put_number_field(out, pos, LITE_SLOT, slot as u64);
    proof {
        lemma_written_twice(start, p0, a + b, c);
    }
    let pos: usize = put_byte(out, pos, tag);
    proof {
        lemma_written_twice(start, p0, a + b + c, d);
    }
    let pos: usize = put_varint(out, pos, body_len as u64);
    proof {
        lemma_written_twice(start, p0, a + b + c + d, e);
        lemma_written_twice(start, p0, a + b + c + d + e, body);
        assert(a + b + c + d + e + body =~= message(slot, tag, body));
    }
    Some(pos)
}

/// Signs and masks a message that was written behind the room for the signature.
fn finish(out: &mut [u8], len: usize, keys: &mut SendKeys, Ghost(start): Ghost<Seq<u8>>, Ghost(msg): Ghost<Seq<u8>>) -> (total: Option<usize>)
    requires
        msg.len() == len,
        AUTH_LEN + len <= start.len(),
        old(out)@ == written(start, AUTH_LEN as int, msg),
    ensures
        encodes(msg, *old(keys), *final(keys), start, final(out)@, total),
{
    let ghost before = out@;
    assert(before.subrange(24, 24 + len) =~= msg);
    match keys.sealer.seal(out, len) {
        Some(n) => {
            let ghost packet = crate::seal::sealed(old(keys).sealer.key(), old(keys).sealer.next(), msg);
            let ghost rest = before.skip(n as int);
            assert(packet.len() == n);
            let (head, _tail) = out.split_at_mut(n);
            assert(head@ =~= packet);
            mask(head, &keys.xor);
            proof {
                assert(rest =~= start.skip(n as int));
                assert(out@ =~= masked(packet, keys.xor@) + rest);
            }
            Some(n)
        },
        None => None,
    }
}

/// Writes a `Lite` with `Data`, signed and masked; the length, or `None` if it does not fit.
pub fn encode_data(slot: u32, payload: &[u8], keys: &mut SendKeys, out: &mut [u8]) -> (total: Option<usize>)
    ensures
        encodes(message(slot, LITE_DATA, data_body(payload@)), *old(keys), *final(keys), old(out)@, final(out)@, total),
{
    let ghost body = data_body(payload@);
    let ghost msg = message(slot, LITE_DATA, body);
    let ghost start = out@;
    let body_len: u128 = bytes_field_len(payload.len());
    assert(body_len == bytes_field(DATA_PAYLOAD, payload@).len());
    match put_lite_head(out, slot, LITE_DATA, body_len, Ghost(body)) {
        Some(at) => {
            let end: usize = put_bytes_field(out, at, DATA_PAYLOAD, payload);
            finish(out, end - AUTH_LEN, keys, Ghost(start), Ghost(msg))
        },
        None => None,
    }
}

/// Writes a `Lite` with `WrappedData`, signed and masked; the length, or `None` if it does not
/// fit.
pub fn encode_wrapped(
    slot: u32,
    seq: u64,
    payload: &[u8],
    client_id: u32,
    flow: Option<u32>,
    keys: &mut SendKeys,
    out: &mut [u8],
) -> (total: Option<usize>)
    ensures
        encodes(message(slot, LITE_WRAPPED, wrapped_body(seq, payload@, client_id, flow)), *old(keys), *final(keys), old(out)@, final(out)@, total),
{
    let ghost body = wrapped_body(seq, payload@, client_id, flow);
    let ghost msg = message(slot, LITE_WRAPPED, body);
    let ghost start = out@;
    let ghost a = number_field(WRAPPED_SEQ, seq);
    let ghost b = bytes_field(WRAPPED_PAYLOAD, payload@);
    let ghost c = number_field(WRAPPED_CLIENT, client_id as u64);
    let ghost d = optional_field(WRAPPED_FLOW, flow);
    let body_len: u128 = varint_field_len(seq) + bytes_field_len(payload.len()) + varint_field_len(client_id as u64)
        + optional_field_len(flow);
    assert(body_len == a.len() + b.len() + c.len() + d.len());
    match put_lite_head(out, slot, LITE_WRAPPED, body_len, Ghost(body)) {
        Some(at) => {
            let ghost headed = out@;
            let pos: usize = put_number_field(out, at, WRAPPED_SEQ, seq);
            let pos: usize = put_bytes_field(out, pos, WRAPPED_PAYLOAD, payload);
            proof {
                lemma_written_twice(headed, at as int, a, b);
            }
            let pos: usize = put_number_field(out, pos, WRAPPED_CLIENT, client_id as u64);
            proof {
                lemma_written_twice(headed, at as int, a + b, c);
            }
            let pos: usize = put_optional_field(out, pos, WRAPPED_FLOW, flow);
            proof {
                lemma_written_twice(headed, at as int, a + b + c, d);
            }
            finish(out, pos - AUTH_LEN, keys, Ghost(start), Ghost(msg))
        },
        None => None,
    }
}

/// Writes a `Lite` with `Ordered`, signed and masked; the length, or `None` if it does not fit.
pub fn encode_ordered(slot: u32, flow: u32, seq: u64, payload: &[u8], keys: &mut SendKeys, out: &mut [u8]) -> (total: Option<usize>)
    ensures
        encodes(message(slot, LITE_ORDERED, ordered_body(flow, seq, payload@)), *old(keys), *final(keys), old(out)@, final(out)@, total),
{
    let ghost body = ordered_body(flow, seq, payload@);
    let ghost msg = message(slot, LITE_ORDERED, body);
    let ghost start = out@;
    let ghost a = number_field(ORDERED_FLOW, flow as u64);
    let ghost b = number_field(ORDERED_SEQ, seq);
    let ghost c = bytes_field(ORDERED_PAYLOAD, payload@);
    let body_len: u128 = varint_field_len(flow as u64) + varint_field_len(seq) + bytes_field_len(payload.len());
    assert(body_len == a.len() + b.len() + c.len());
    match put_lite_head(out, slot, LITE_ORDERED, body_len, Ghost(body)) {
        Some(at) => {
            let ghost headed = out@;
            let pos: usize = put_number_field(out, at, ORDERED_FLOW, flow as u64);
            let pos: usize = put_number_field(out, pos, ORDERED_SEQ, seq);
            proof {
                lemma_written_twice(headed, at as int, a, b);
            }
            let pos: usize = put_bytes_field(out, pos, ORDERED_PAYLOAD, payload);
            proof {
                lemma_written_twice(headed, at as int, a + b, c);
            }
            finish(out, pos - AUTH_LEN, keys, Ghost(start), Ghost(msg))
        },
        None => None,
    }
}

spec fn number_part(tag: u8, v: u64) -> Seq<Field> {
    if v == 0 {
        Seq::empty()
    } else {
        seq![Field { tag, number: v, bytes: Seq::empty() }]
    }
}

pub open spec fn bytes_part(tag: u8, data: Seq<u8>) -> Seq<Field> {
    if data.len() == 0 {
        Seq::empty()
    } else {
        seq![Field { tag, number: 0, bytes: data }]
    }
}

spec fn optional_part(tag: u8, v: Option<u32>) -> Seq<Field> {
    match v {
        Some(v) => seq![Field { tag, number: v as u64, bytes: Seq::empty() }],
        None => Seq::empty(),
    }
}

/// A number that was written, zero too, is read as the first field.
proof fn lemma_number_read(tag: u8, v: u64, rest: Seq<u8>)
    requires
        tag % 8 == 0,
    ensures
        fields(seq![tag] + varint(v as nat) + rest) == match fields(rest) {
            Some(fs) => Some(seq![Field { tag, number: v, bytes: Seq::empty() }] + fs),
            None => None,
        },
{
    let s = seq![tag] + varint(v as nat) + rest;
    law_varint_round_trip(v, rest);
    let n = varint(v as nat).len();
    assert(s.drop_first() =~= varint(v as nat) + rest);
    assert(s.skip(1 + n as int) =~= rest);
}

proof fn lemma_number_field(tag: u8, v: u64, rest: Seq<u8>)
    requires
        tag % 8 == 0,
    ensures
        fields(number_field(tag, v) + rest) == match fields(rest) {
            Some(fs) => Some(number_part(tag, v) + fs),
            None => None,
        },
{
    if v == 0 {
        assert(number_field(tag, v) + rest =~= rest);
        if let Some(fs) = fields(rest) {
            assert(number_part(tag, v) + fs =~= fs);
        }
    } else {
        lemma_number_read(tag, v, rest);
    }
}

proof fn lemma_optional_field(tag: u8, v: Option<u32>, rest: Seq<u8>)
    requires
        tag % 8 == 0,
    ensures
        fields(optional_field(tag, v) + rest) == match fields(rest) {
            Some(fs) => Some(optional_part(tag, v) + fs),
            None => None,
        },
{
    match v {
        None => {
            assert(optional_field(tag, v) + rest =~= rest);
            if let Some(fs) = fields(rest) {
                assert(optional_part(tag, v) + fs =~= fs);
            }
        },
        Some(x) => {
            lemma_number_read(tag, x as u64, rest);
        },
    }
}

/// Bytes that were written, none too, are read as the first field.
proof fn lemma_bytes_read(tag: u8, data: Seq<u8>, rest: Seq<u8>)
    requires
        tag % 8 == 2,
        data.len() <= u64::MAX,
    ensures
        fields(seq![tag] + varint(data.len()) + data + rest) == match fields(rest) {
            Some(fs) => Some(seq![Field { tag, number: 0, bytes: data }] + fs),
            None => None,
        },
{
    let s = seq![tag] + varint(data.len()) + data + rest;
    law_varint_round_trip(data.len() as u64, data + rest);
    let n = varint(data.len()).len();
    assert(s.drop_first() =~= varint(data.len()) + (data + rest));
    assert(s.skip(1 + n as int + data.len()) =~= rest);
    assert(s.subrange(1 + n as int, 1 + n as int + data.len()) =~= data);
}

pub proof fn lemma_bytes_field(tag: u8, data: Seq<u8>, rest: Seq<u8>)
    requires
        tag % 8 == 2,
        data.len() <= u64::MAX,
    ensures
        fields(bytes_field(tag, data) + rest) == match fields(rest) {
            Some(fs) => Some(bytes_part(tag, data) + fs),
            None => None,
        },
{
    if data.len() == 0 {
        assert(bytes_field(tag, data) + rest =~= rest);
        if let Some(fs) = fields(rest) {
            assert(bytes_part(tag, data) + fs =~= fs);
        }
    } else {
        lemma_bytes_read(tag, data, rest);
    }
}

/// At most one field with the tag before fields without it.
proof fn lemma_join(a: Seq<Field>, b: Seq<Field>, tag: u8, tags: Seq<u8>)
    requires
        a.len() <= 1,
        a.len() == 1 ==> a[0].tag == tag,
        unique(b),
        !present(b, tag),
    ensures
        unique(a + b),
        forall|t: u8| #[trigger] present(a + b, t) <==> (a.len() == 1 && t == tag) || present(b, t),
        forall|t: u8| #[trigger]
            number(a + b, t) == if a.len() == 1 && t == tag {
                a[0].number
            } else {
                number(b, t)
            },
        forall|t: u8| #[trigger]
            bytes(a + b, t) == if a.len() == 1 && t == tag {
                a[0].bytes
            } else {
                bytes(b, t)
            },
        only(b, tags) && tags.contains(tag) ==> only(a + b, tags),
{
    let fs = a + b;
    let n = a.len() as int;
    assert forall|i: int| 0 <= i < fs.len() implies #[trigger] fs[i] == if i < n {
        a[i]
    } else {
        b[i - n]
    } by {}
    assert forall|i: int| 0 <= i < b.len() implies (#[trigger] b[i]).tag != tag by {}
    assert forall|t: u8| #[trigger] present(fs, t) <==> (n == 1 && t == tag) || present(b, t) by {
        if present(b, t) {
            let i = choose|i: int| 0 <= i < b.len() && (#[trigger] b[i]).tag == t;
            assert(fs[i + n].tag == t);
        }
        if present(fs, t) {
            let i = choose|i: int| 0 <= i < fs.len() && (#[trigger] fs[i]).tag == t;
            if i >= n {
                assert(b[i - n].tag == t);
            }
        }
        if n == 1 && t == tag {
            assert(fs[0].tag == t);
        }
    }
    assert forall|t: u8| present(fs, t) implies #[trigger] field(fs, t) == if n == 1 && t == tag {
        a[0]
    } else {
        field(b, t)
    } by {
        let i = choose|i: int| 0 <= i < fs.len() && (#[trigger] fs[i]).tag == t;
        if i >= n {
            assert(b[i - n].tag == t);
            let j = choose|j: int| 0 <= j < b.len() && (#[trigger] b[j]).tag == t;
            assert(j == i - n);
        }
    }
}

/// A message with one body is split into its slot and its body.
proof fn lemma_message_fields(slot: u32, tag: u8, body: Seq<u8>)
    requires
        tag % 8 == 2,
        lite(slot, tag, body).len() <= u64::MAX,
    ensures
        fields(message(slot, tag, body)) == Some(
            seq![Field { tag: PEER_LITE, number: 0, bytes: lite(slot, tag, body) }],
        ),
        fields(lite(slot, tag, body)) == Some(
            number_part(LITE_SLOT, slot as u64) + seq![Field { tag, number: 0, bytes: body }],
        ),
{
    let l = lite(slot, tag, body);
    let none = Seq::<u8>::empty();
    assert(fields(none) == Some(Seq::<Field>::empty()));
    assert(seq![PEER_LITE] + varint(l.len()) + l + none =~= message(slot, tag, body));
    lemma_bytes_read(PEER_LITE, l, none);
    let top = seq![Field { tag: PEER_LITE, number: 0, bytes: l }];
    assert(top + Seq::<Field>::empty() =~= top);
    let tail = seq![tag] + varint(body.len()) + body + none;
    lemma_bytes_read(tag, body, none);
    lemma_number_field(LITE_SLOT, slot as u64, tail);
    assert(number_field(LITE_SLOT, slot as u64) + tail =~= l);
    let f = seq![Field { tag, number: 0, bytes: body }];
    assert(f + Seq::<Field>::empty() =~= f);
}

/// The slot and the body of a `Lite` message are found by their tags.
#[verifier::spinoff_prover]
#[verifier::rlimit(40)]
proof fn lemma_lite_lookup(slot: u32, tag: u8, body: Seq<u8>)
    requires
        tag == LITE_DATA || tag == LITE_WRAPPED || tag == LITE_ORDERED,
    ensures
        ({
            let fs = number_part(LITE_SLOT, slot as u64) + seq![Field { tag, number: 0, bytes: body }];
            &&& unique(fs)
            &&& only(fs, seq![LITE_SLOT, LITE_DATA, LITE_WRAPPED, LITE_ORDERED])
            &&& body_tag(fs) == Some(tag)
            &&& bytes(fs, tag) == body
            &&& number(fs, LITE_SLOT) == slot
        }),
{
    let allowed = seq![LITE_SLOT, LITE_DATA, LITE_WRAPPED, LITE_ORDERED];
    assert(allowed[0] == LITE_SLOT && allowed[1] == LITE_DATA && allowed[2] == LITE_WRAPPED && allowed[3]
        == LITE_ORDERED);
    let none = Seq::<Field>::empty();
    let f = seq![Field { tag, number: 0, bytes: body }];
    lemma_join(f, none, tag, allowed);
    assert(f + none =~= f);
    lemma_join(number_part(LITE_SLOT, slot as u64), f, LITE_SLOT, allowed);
    assert(!present(none, LITE_DATA) && !present(none, LITE_WRAPPED) && !present(none, LITE_ORDERED));
}

/// Reading a message goes through its fields.
proof fn lemma_parsed(buf: Seq<u8>, top: Seq<Field>, fs: Seq<Field>, tag: u8, inner: Seq<Field>)
    requires
        fields(buf) == Some(top),
        top.len() == 1,
        top[0].tag == PEER_LITE,
        fields(top[0].bytes) == Some(fs),
        unique(fs),
        only(fs, seq![LITE_SLOT, LITE_DATA, LITE_WRAPPED, LITE_ORDERED]),
        body_tag(fs) == Some(tag),
        fields(bytes(fs, tag)) == Some(inner),
    ensures
        parsed(buf) == parsed_body(low32(number(fs, LITE_SLOT)), tag, inner),
{
    assert(parsed_lite(fs) == parsed_body(low32(number(fs, LITE_SLOT)), tag, inner));
}

/// A message with one body is read as its slot and its body.
#[verifier::spinoff_prover]
#[verifier::rlimit(40)]
proof fn lemma_message_read(slot: u32, tag: u8, body: Seq<u8>, inner: Seq<Field>)
    requires
        tag == LITE_DATA || tag == LITE_WRAPPED || tag == LITE_ORDERED,
        lite(slot, tag, body).len() <= u64::MAX,
        fields(body) == Some(inner),
    ensures
        parsed(message(slot, tag, body)) == parsed_body(slot, tag, inner),
{
    lemma_message_fields(slot, tag, body);
    lemma_lite_lookup(slot, tag, body);
    let top = seq![Field { tag: PEER_LITE, number: 0, bytes: lite(slot, tag, body) }];
    let fs = number_part(LITE_SLOT, slot as u64) + seq![Field { tag, number: 0, bytes: body }];
    assert(low32(slot as u64) == slot);
    lemma_parsed(message(slot, tag, body), top, fs, tag, inner);
}

/// A data packet is read as it was written.
#[verifier::spinoff_prover]
#[verifier::rlimit(40)]
pub proof fn law_parse_reads_data(slot: u32, payload: Seq<u8>)
    requires
        message(slot, LITE_DATA, data_body(payload)).len() <= u64::MAX,
    ensures
        parsed(message(slot, LITE_DATA, data_body(payload))) == Some(FastModel::Data { slot, payload }),
{
    let none = Seq::<u8>::empty();
    let body = data_body(payload);
    lemma_bytes_field(DATA_PAYLOAD, payload, none);
    assert(body + none =~= body);
    let fs = bytes_part(DATA_PAYLOAD, payload);
    let empty = Seq::<Field>::empty();
    assert(fs + empty =~= fs);
    lemma_message_read(slot, LITE_DATA, body, fs);
    let tags = seq![DATA_PAYLOAD];
    assert(tags[0] == DATA_PAYLOAD);
    lemma_join(fs, empty, DATA_PAYLOAD, tags);
    assert(bytes(fs, DATA_PAYLOAD) =~= payload);
}

/// The fields of a numbered packet.
proof fn lemma_ordered_fields(flow: u32, seq: u64, payload: Seq<u8>)
    requires
        payload.len() <= u64::MAX,
    ensures
        fields(ordered_body(flow, seq, payload)) == Some(
            number_part(ORDERED_FLOW, flow as u64) + (number_part(ORDERED_SEQ, seq) + bytes_part(
                ORDERED_PAYLOAD,
                payload,
            )),
        ),
{
    let none = Seq::<u8>::empty();
    let (a, b, c) = (
        number_field(ORDERED_FLOW, flow as u64),
        number_field(ORDERED_SEQ, seq),
        bytes_field(ORDERED_PAYLOAD, payload),
    );
    lemma_bytes_field(ORDERED_PAYLOAD, payload, none);
    assert(fields(none) == Some(Seq::<Field>::empty()));
    let z = bytes_part(ORDERED_PAYLOAD, payload);
    assert(z + Seq::<Field>::empty() =~= z);
    assert(c + none =~= c);
    lemma_number_field(ORDERED_SEQ, seq, c);
    lemma_number_field(ORDERED_FLOW, flow as u64, b + c);
    assert(a + (b + c) =~= ordered_body(flow, seq, payload));
}

/// A numbered packet is read as it was written.
#[verifier::spinoff_prover]
#[verifier::rlimit(40)]
pub proof fn law_parse_reads_ordered(slot: u32, flow: u32, seq: u64, payload: Seq<u8>)
    requires
        message(slot, LITE_ORDERED, ordered_body(flow, seq, payload)).len() <= u64::MAX,
    ensures
        parsed(message(slot, LITE_ORDERED, ordered_body(flow, seq, payload))) == Some(
            FastModel::Ordered { slot, flow, seq, payload },
        ),
{
    lemma_ordered_fields(flow, seq, payload);
    let (x, y, z) = (
        number_part(ORDERED_FLOW, flow as u64),
        number_part(ORDERED_SEQ, seq),
        bytes_part(ORDERED_PAYLOAD, payload),
    );
    let fs = x + (y + z);
    lemma_message_read(slot, LITE_ORDERED, ordered_body(flow, seq, payload), fs);
    let tags = seq![ORDERED_FLOW, ORDERED_SEQ, ORDERED_PAYLOAD];
    assert(tags[0] == ORDERED_FLOW && tags[1] == ORDERED_SEQ && tags[2] == ORDERED_PAYLOAD);
    let none = Seq::<Field>::empty();
    assert(z + none =~= z);
    lemma_join(z, none, ORDERED_PAYLOAD, tags);
    lemma_join(y, z, ORDERED_SEQ, tags);
    lemma_join(x, y + z, ORDERED_FLOW, tags);
    assert(number(fs, ORDERED_FLOW) == flow);
    assert(number(fs, ORDERED_SEQ) == seq);
    assert(bytes(fs, ORDERED_PAYLOAD) =~= payload);
    assert(low32(flow as u64) == flow);
}

/// The fields of a wrapped packet.
proof fn lemma_wrapped_fields(seq: u64, payload: Seq<u8>, client_id: u32, flow: Option<u32>)
    requires
        payload.len() <= u64::MAX,
    ensures
        fields(wrapped_body(seq, payload, client_id, flow)) == Some(
            number_part(WRAPPED_SEQ, seq) + (bytes_part(WRAPPED_PAYLOAD, payload) + (number_part(
                WRAPPED_CLIENT,
                client_id as u64,
            ) + optional_part(WRAPPED_FLOW, flow))),
        ),
{
    let none = Seq::<u8>::empty();
    let (a, b, c, d) = (
        number_field(WRAPPED_SEQ, seq),
        bytes_field(WRAPPED_PAYLOAD, payload),
        number_field(WRAPPED_CLIENT, client_id as u64),
        optional_field(WRAPPED_FLOW, flow),
    );
    lemma_optional_field(WRAPPED_FLOW, flow, none);
    assert(fields(none) == Some(Seq::<Field>::empty()));
    let z = optional_part(WRAPPED_FLOW, flow);
    assert(z + Seq::<Field>::empty() =~= z);
    assert(d + none =~= d);
    lemma_number_field(WRAPPED_CLIENT, client_id as u64, d);
    lemma_bytes_field(WRAPPED_PAYLOAD, payload, c + d);
    lemma_number_field(WRAPPED_SEQ, seq, b + (c + d));
    assert(a + (b + (c + d)) =~= wrapped_body(seq, payload, client_id, flow));
}

/// The fields of a wrapped packet are found by their tags.
#[verifier::spinoff_prover]
#[verifier::rlimit(40)]
proof fn lemma_wrapped_lookup(seq: u64, payload: Seq<u8>, client_id: u32, flow: Option<u32>)
    ensures
        ({
            let fs = number_part(WRAPPED_SEQ, seq) + (bytes_part(WRAPPED_PAYLOAD, payload) + (number_part(
                WRAPPED_CLIENT,
                client_id as u64,
            ) + optional_part(WRAPPED_FLOW, flow)));
            &&& unique(fs)
            &&& only(fs, seq![WRAPPED_SEQ, WRAPPED_PAYLOAD, WRAPPED_CLIENT, WRAPPED_FLOW])
            &&& number(fs, WRAPPED_SEQ) == seq
            &&& bytes(fs, WRAPPED_PAYLOAD) == payload
            &&& number(fs, WRAPPED_CLIENT) == client_id
            &&& present(fs, WRAPPED_FLOW) <==> flow is Some
            &&& flow matches Some(f) ==> number(fs, WRAPPED_FLOW) == f
        }),
{
    let (w, x, y, z) = (
        number_part(WRAPPED_SEQ, seq),
        bytes_part(WRAPPED_PAYLOAD, payload),
        number_part(WRAPPED_CLIENT, client_id as u64),
        optional_part(WRAPPED_FLOW, flow),
    );
    let fs = w + (x + (y + z));
    let tags = seq![WRAPPED_SEQ, WRAPPED_PAYLOAD, WRAPPED_CLIENT, WRAPPED_FLOW];
    assert(tags[0] == WRAPPED_SEQ && tags[1] == WRAPPED_PAYLOAD && tags[2] == WRAPPED_CLIENT && tags[3]
        == WRAPPED_FLOW);
    let none = Seq::<Field>::empty();
    assert(z + none =~= z);
    lemma_join(z, none, WRAPPED_FLOW, tags);
    lemma_join(y, z, WRAPPED_CLIENT, tags);
    lemma_join(x, y + z, WRAPPED_PAYLOAD, tags);
    lemma_join(w, x + (y + z), WRAPPED_SEQ, tags);
    assert(bytes(fs, WRAPPED_PAYLOAD) =~= payload);
}

/// A wrapped packet is read as it was written.
#[verifier::spinoff_prover]
#[verifier::rlimit(40)]
pub proof fn law_parse_reads_wrapped(slot: u32, seq: u64, payload: Seq<u8>, client_id: u32, flow: Option<u32>)
    requires
        message(slot, LITE_WRAPPED, wrapped_body(seq, payload, client_id, flow)).len() <= u64::MAX,
    ensures
        parsed(message(slot, LITE_WRAPPED, wrapped_body(seq, payload, client_id, flow))) == Some(
            FastModel::Wrapped { slot, seq, payload, client_id, flow },
        ),
{
    lemma_wrapped_fields(seq, payload, client_id, flow);
    lemma_wrapped_lookup(seq, payload, client_id, flow);
    let (w, x, y, z) = (
        number_part(WRAPPED_SEQ, seq),
        bytes_part(WRAPPED_PAYLOAD, payload),
        number_part(WRAPPED_CLIENT, client_id as u64),
        optional_part(WRAPPED_FLOW, flow),
    );
    let fs = w + (x + (y + z));
    lemma_message_read(slot, LITE_WRAPPED, wrapped_body(seq, payload, client_id, flow), fs);
    assert(low32(client_id as u64) == client_id);
    if let Some(f) = flow {
        assert(low32(f as u64) == f);
    }
}

} // verus!
