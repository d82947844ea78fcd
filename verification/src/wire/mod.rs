//! Fast codec of data packets: `Lite` messages with `Data`, `WrappedData` or `Ordered`, written
//! straight into the caller's buffer and read without allocation. The format is protobuf; every
//! other message goes through the general codec.

pub mod laws;
pub mod write;

use crate::varint::{get_varint, lemma_read_extended, read_varint};
use vstd::prelude::*;
use vstd::slice::slice_subrange;

verus! {

// A tag is the number of a field times eight and the kind of its value: 0 for a number, 2 for a
// length and bytes.
pub const PEER_LITE: u8 = 18;

pub const LITE_SLOT: u8 = 8;

pub const LITE_DATA: u8 = 26;

pub const LITE_WRAPPED: u8 = 58;

pub const LITE_ORDERED: u8 = 66;

pub const DATA_PAYLOAD: u8 = 10;

pub const WRAPPED_SEQ: u8 = 8;

pub const WRAPPED_PAYLOAD: u8 = 18;

pub const WRAPPED_CLIENT: u8 = 24;

pub const WRAPPED_FLOW: u8 = 32;

pub const ORDERED_FLOW: u8 = 8;

pub const ORDERED_SEQ: u8 = 16;

pub const ORDERED_PAYLOAD: u8 = 26;

/// A field of a message: its tag and its value, a number or bytes.
#[verifier::ext_equal]
pub struct Field {
    pub tag: u8,
    pub number: u64,
    pub bytes: Seq<u8>,
}

/// The field at the beginning of `s`, and its length.
pub open spec fn first_field(s: Seq<u8>) -> Option<(Field, nat)> {
    if s.len() == 0 {
        None
    } else {
        match read_varint(s.drop_first()) {
            Some((v, n)) => {
                if s[0] % 8 == 0 {
                    Some((Field { tag: s[0], number: v, bytes: Seq::empty() }, 1 + n))
                } else if s[0] % 8 == 2 && 1 + n + v <= s.len() {
                    Some((Field { tag: s[0], number: 0, bytes: s.subrange(1 + n as int, 1 + n + v) }, 1 + n + v as nat))
                } else {
                    None
                }
            },
            None => None,
        }
    }
}

/// The fields that `s` consists of.
pub open spec fn fields(s: Seq<u8>) -> Option<Seq<Field>>
    decreases s.len(),
{
    if s.len() == 0 {
        Some(Seq::empty())
    } else {
        match first_field(s) {
            Some((f, n)) => {
                if 0 < n <= s.len() {
                    match fields(s.skip(n as int)) {
                        Some(rest) => Some(seq![f] + rest),
                        None => None,
                    }
                } else {
                    None
                }
            },
            None => None,
        }
    }
}

/// No tag occurs twice.
pub open spec fn unique(fs: Seq<Field>) -> bool {
    forall|i: int, j: int| 0 <= i < j < fs.len() ==> (#[trigger] fs[i]).tag != (#[trigger] fs[j]).tag
}

/// Every field has one of the tags.
pub open spec fn only(fs: Seq<Field>, tags: Seq<u8>) -> bool {
    forall|i: int| 0 <= i < fs.len() ==> tags.contains((#[trigger] fs[i]).tag)
}

/// A field with the tag is among `fs`.
pub open spec fn present(fs: Seq<Field>, tag: u8) -> bool {
    exists|i: int| 0 <= i < fs.len() && (#[trigger] fs[i]).tag == tag
}

/// The field with the tag.
pub open spec fn field(fs: Seq<Field>, tag: u8) -> Field {
    fs[choose|i: int| 0 <= i < fs.len() && (#[trigger] fs[i]).tag == tag]
}

/// The number with the tag, 0 if it is absent.
pub open spec fn number(fs: Seq<Field>, tag: u8) -> u64 {
    if present(fs, tag) {
        field(fs, tag).number
    } else {
        0
    }
}

/// The bytes with the tag, none if they are absent.
pub open spec fn bytes(fs: Seq<Field>, tag: u8) -> Seq<u8> {
    if present(fs, tag) {
        field(fs, tag).bytes
    } else {
        Seq::empty()
    }
}

/// A data packet.
#[verifier::ext_equal]
#[allow(inconsistent_fields)]
pub enum FastModel {
    Data { slot: u32, payload: Seq<u8> },
    Wrapped { slot: u32, seq: u64, payload: Seq<u8>, client_id: u32, flow: Option<u32> },
    Ordered { slot: u32, flow: u32, seq: u64, payload: Seq<u8> },
}

/// The lowest 32 bits.
pub open spec fn low32(v: u64) -> u32 {
    (v % 0x1_0000_0000) as u32
}

/// The body of a `Lite` message with the tag.
pub open spec fn parsed_body(slot: u32, tag: u8, fs: Seq<Field>) -> Option<FastModel> {
    if !unique(fs) {
        None
    } else if tag == LITE_DATA {
        if only(fs, seq![DATA_PAYLOAD]) {
            Some(FastModel::Data { slot, payload: bytes(fs, DATA_PAYLOAD) })
        } else {
            None
        }
    } else if tag == LITE_ORDERED {
        if only(fs, seq![ORDERED_FLOW, ORDERED_SEQ, ORDERED_PAYLOAD]) {
            Some(
                FastModel::Ordered {
                    slot,
                    flow: low32(number(fs, ORDERED_FLOW)),
                    seq: number(fs, ORDERED_SEQ),
                    payload: bytes(fs, ORDERED_PAYLOAD),
                },
            )
        } else {
            None
        }
    } else {
        if only(fs, seq![WRAPPED_SEQ, WRAPPED_PAYLOAD, WRAPPED_CLIENT, WRAPPED_FLOW]) {
            Some(
                FastModel::Wrapped {
                    slot,
                    seq: number(fs, WRAPPED_SEQ),
                    payload: bytes(fs, WRAPPED_PAYLOAD),
                    client_id: low32(number(fs, WRAPPED_CLIENT)),
                    flow: if present(fs, WRAPPED_FLOW) {
                        Some(low32(number(fs, WRAPPED_FLOW)))
                    } else {
                        None
                    },
                },
            )
        } else {
            None
        }
    }
}

/// The body tag of a `Lite` message that has exactly one body.
pub open spec fn body_tag(fs: Seq<Field>) -> Option<u8> {
    let (d, w, o) = (present(fs, LITE_DATA), present(fs, LITE_WRAPPED), present(fs, LITE_ORDERED));
    if d && !w && !o {
        Some(LITE_DATA)
    } else if w && !d && !o {
        Some(LITE_WRAPPED)
    } else if o && !d && !w {
        Some(LITE_ORDERED)
    } else {
        None
    }
}

/// What a `Lite` message says: at most one slot and exactly one body, nothing else.
pub open spec fn parsed_lite(fs: Seq<Field>) -> Option<FastModel> {
    if unique(fs) && only(fs, seq![LITE_SLOT, LITE_DATA, LITE_WRAPPED, LITE_ORDERED]) {
        match body_tag(fs) {
            Some(tag) => match fields(bytes(fs, tag)) {
                Some(inner) => parsed_body(low32(number(fs, LITE_SLOT)), tag, inner),
                None => None,
            },
            None => None,
        }
    } else {
        None
    }
}

/// What a message says: it is exactly one `Lite` with a data packet, without unknown and without
/// repeated fields.
pub open spec fn parsed(buf: Seq<u8>) -> Option<FastModel> {
    match fields(buf) {
        Some(top) => if top.len() == 1 && top[0].tag == PEER_LITE {
            match fields(top[0].bytes) {
                Some(lite) => parsed_lite(lite),
                None => None,
            }
        } else {
            None
        },
        None => None,
    }
}

/// A parsed data packet; the payload lies in the receive buffer.
#[allow(inconsistent_fields)]
#[derive(Clone, Copy, Debug, PartialEq, Eq)]
pub enum Fast<'a> {
    Data { slot: u32, payload: &'a [u8] },
    Wrapped { slot: u32, seq: u64, payload: &'a [u8], client_id: u32, flow: Option<u32> },
    Ordered { slot: u32, flow: u32, seq: u64, payload: &'a [u8] },
}

impl<'a> View for Fast<'a> {
    type V = FastModel;

    open spec fn view(&self) -> FastModel {
        match *self {
            Fast::Data { slot, payload } => FastModel::Data { slot, payload: payload@ },
            Fast::Wrapped { slot, seq, payload, client_id, flow } => FastModel::Wrapped {
                slot,
                seq,
                payload: payload@,
                client_id,
                flow,
            },
            Fast::Ordered { slot, flow, seq, payload } => FastModel::Ordered {
                slot,
                flow,
                seq,
                payload: payload@,
            },
        }
    }
}

/// The value of a field in the receive buffer: a number, or where its bytes start and end.
#[derive(Clone, Copy)]
struct Value {
    number: u64,
    start: usize,
    end: usize,
}

/// The value is that of the field with the tag, if there is one.
spec fn value_of(buf: Seq<u8>, fs: Seq<Field>, tag: u8, v: Option<Value>) -> bool {
    match v {
        Some(v) => {
            &&& present(fs, tag)
            &&& v.start <= v.end <= buf.len()
            &&& forall|i: int| 0 <= i < fs.len() && (#[trigger] fs[i]).tag == tag ==> fs[i].number == v.number
                && fs[i].bytes == buf.subrange(v.start as int, v.end as int)
        },
        None => !present(fs, tag),
    }
}

/// Reads a message whose fields have the given tags, none twice; their values in the order of
/// the tags. Unused places of `tags` are zero.
fn read_message(buf: &[u8], tags: &[u8; 4]) -> (values: Option<[Option<Value>; 4]>)
    requires
        forall|i: int, j: int| 0 <= i < j < 4 && tags@[i] != 0 ==> tags@[i] != tags@[j],
        forall|i: int| 0 <= i < 4 ==> (#[trigger] tags@[i]) % 8 == 0 || tags@[i] % 8 == 2,
    ensures
        values is Some <==> (fields(buf@) is Some && unique(fields(buf@)->0) && forall|i: int|
            0 <= i < fields(buf@)->0.len() ==> (#[trigger] fields(buf@)->0[i]).tag != 0 && tags@.contains(
                fields(buf@)->0[i].tag,
            )),
        values matches Some(vs) ==> forall|k: int|
            0 <= k < 4 && tags@[k] != 0 ==> value_of(buf@, fields(buf@)->0, tags@[k], #[trigger] vs@[k]),
{
    let size: usize = buf.len();
    let mut values: [Option<Value>; 4] = [None; 4];
    let mut pos: usize = 0;
    let ghost mut seen: Seq<Field> = Seq::empty();
    assert(buf@.skip(0) =~= buf@);
    while pos < size
        invariant
            pos <= size == buf@.len(),
            forall|i: int, j: int| 0 <= i < j < 4 && tags@[i] != 0 ==> tags@[i] != tags@[j],
            forall|i: int| 0 <= i < 4 ==> (#[trigger] tags@[i]) % 8 == 0 || tags@[i] % 8 == 2,
            unique(seen),
            forall|i: int| 0 <= i < seen.len() ==> (#[trigger] seen[i]).tag != 0 && tags@.contains(seen[i].tag),
            forall|k: int| 0 <= k < 4 && tags@[k] != 0 ==> value_of(buf@, seen, tags@[k], #[trigger] values@[k]),
            match fields(buf@.skip(pos as int)) {
                Some(rest) => fields(buf@) == Some(seen + rest),
                None => fields(buf@) is None,
            },
        decreases size - pos,
    {
        let ghost s = buf@.skip(pos as int);
        let tag: u8 = buf[pos];
        let mut at: usize = 4;
        let mut k: usize = 0;
        while k < 4
            invariant
                k <= 4,
                at <= 4,
                tag != 0 && at < 4 ==> tags@[at as int] == tag,
                tag == 0 ==> at == 4,
                at == 4 && tag != 0 ==> forall|j: int| 0 <= j < k ==> tags@[j] != tag,
            decreases 4 - k,
        {
            if at == 4 && tag != 0 && tags[k] == tag {
                at = k;
            }
            k += 1;
        }
        proof {
            assert(s[0] == tag);
            assert(s.drop_first() =~= buf@.skip(pos + 1));
            if let Some(rest) = fields(s) {
                assert(rest[0].tag == tag);
                assert((seen + rest)[seen.len() as int].tag == tag);
                if at == 4 {
                    assert(tag == 0 || !tags@.contains(tag));
                } else if values@[at as int] is Some {
                    assert(present(seen, tag));
                    let i = choose|i: int| 0 <= i < seen.len() && (#[trigger] seen[i]).tag == tag;
                    assert((seen + rest)[i].tag == tag);
                    assert(!unique(seen + rest));
                }
            }
        }
        if at == 4 || values[at].is_some() {
            return None;
        }
        let (v, end): (u64, usize) = match get_varint(buf, pos + 1) {
            Some(read) => read,
            None => {
                return None;
            },
        };
        let mut stop: usize = end;
        let mut value = Value { number: v, start: 0, end: 0 };
        if tag % 8 == 2 {
            if v > (size - end) as u64 {
                return None;
            }
            stop = end + v as usize;
            value = Value { number: 0, start: end, end: stop };
        }
        let ghost values_before = values@;
        values[at] = Some(value);
        proof {
            let before = seen;
            let kept = values_before;
            let n = (stop - pos) as nat;
            let f = (first_field(s)->0).0;
            assert(first_field(s) == Some((f, n)));
            assert(s.skip(n as int) =~= buf@.skip(stop as int));
            if tag % 8 == 2 {
                assert(f.bytes =~= buf@.subrange(end as int, stop as int));
            } else {
                assert(f.bytes =~= buf@.subrange(0, 0));
            }
            if let Some(rest) = fields(buf@.skip(stop as int)) {
                assert(seen + (seq![f] + rest) =~= seen.push(f) + rest);
            }
            seen = seen.push(f);
            assert forall|j: int| 0 <= j < 4 && tags@[j] != 0 implies value_of(buf@, seen, tags@[j], #[trigger] values@[j]) by {
                assert(value_of(buf@, before, tags@[j], kept[j]));
                if j == at {
                    assert(seen[before.len() as int].tag == tag);
                    assert(!present(before, tag));
                } else {
                    assert(tags@[j] != tag);
                    if present(before, tags@[j]) {
                        let i = choose|i: int| 0 <= i < before.len() && (#[trigger] before[i]).tag == tags@[j];
                        assert(seen[i].tag == tags@[j]);
                    }
                    if present(seen, tags@[j]) {
                        let i = choose|i: int| 0 <= i < seen.len() && (#[trigger] seen[i]).tag == tags@[j];
                        assert(before[i].tag == tags@[j]);
                    }
                }
            }
        }
        pos = stop;
    }
    proof {
        assert(buf@.skip(pos as int) =~= Seq::<u8>::empty());
        assert(seen + Seq::<Field>::empty() =~= seen);
    }
    Some(values)
}

proof fn lemma_one(a: u8, t: u8)
    ensures
        seq![a].contains(t) <==> t == a,
{
    assert(seq![a][0] == a);
}

proof fn lemma_three(a: u8, b: u8, c: u8, t: u8)
    ensures
        seq![a, b, c].contains(t) <==> t == a || t == b || t == c,
{
    let s = seq![a, b, c];
    assert(s[0] == a && s[1] == b && s[2] == c);
}

proof fn lemma_four(a: u8, b: u8, c: u8, d: u8, t: u8)
    ensures
        seq![a, b, c, d].contains(t) <==> t == a || t == b || t == c || t == d,
{
    let s = seq![a, b, c, d];
    assert(s[0] == a && s[1] == b && s[2] == c && s[3] == d);
}

/// The allowed tags, with and without unused places.
proof fn lemma_allowed(fs: Seq<Field>, tags: [u8; 4], list: Seq<u8>)
    requires
        forall|t: u8| t != 0 && tags@.contains(t) <==> list.contains(t),
    ensures
        only(fs, list) <==> forall|i: int|
            0 <= i < fs.len() ==> (#[trigger] fs[i]).tag != 0 && tags@.contains(fs[i].tag),
{
    assert forall|i: int| 0 <= i < fs.len() implies (list.contains((#[trigger] fs[i]).tag) <==> fs[i].tag != 0
        && tags@.contains(fs[i].tag)) by {}
}

/// The number of a field, 0 if it is absent.
fn number_or_zero(v: &Option<Value>) -> (n: u64)
    ensures
        n == match *v {
            Some(x) => x.number,
            None => 0,
        },
{
    match v {
        Some(x) => x.number,
        None => 0,
    }
}

/// The bytes of a field, none if it is absent.
fn bytes_or_none<'a>(buf: &'a [u8], v: &Option<Value>) -> (b: &'a [u8])
    requires
        v matches Some(x) ==> x.start <= x.end <= buf@.len(),
    ensures
        b@ == match *v {
            Some(x) => buf@.subrange(x.start as int, x.end as int),
            None => Seq::empty(),
        },
{
    match v {
        Some(x) => slice_subrange(buf, x.start, x.end),
        None => {
            assert(buf@.subrange(0, 0) =~= Seq::<u8>::empty());
            slice_subrange(buf, 0, 0)
        },
    }
}

fn lowest_32(v: u64) -> (low: u32)
    ensures
        low == low32(v),
{
    (v % 0x1_0000_0000) as u32
}

/// The value found for a tag is the one the message has.
proof fn lemma_value(buf: Seq<u8>, fs: Seq<Field>, tag: u8, v: Option<Value>)
    requires
        value_of(buf, fs, tag, v),
    ensures
        v is Some <==> present(fs, tag),
        number(fs, tag) == match v {
            Some(x) => x.number,
            None => 0,
        },
        bytes(fs, tag) == match v {
            Some(x) => buf.subrange(x.start as int, x.end as int),
            None => Seq::empty(),
        },
        v matches Some(x) ==> x.start <= x.end <= buf.len(),
{
    if present(fs, tag) {
        let i = choose|i: int| 0 <= i < fs.len() && (#[trigger] fs[i]).tag == tag;
        assert(fs[i] == field(fs, tag));
    }
}

/// Reads the body of a `Lite` message.
fn parse_body<'a>(slot: u32, tag: u8, inner: &'a [u8]) -> (fast: Option<Fast<'a>>)
    requires
        tag == LITE_DATA || tag == LITE_WRAPPED || tag == LITE_ORDERED,
    ensures
        (match fast {
            Some(f) => Some(f@),
            None => None,
        }) == match fields(inner@) {
            Some(fs) => parsed_body(slot, tag, fs),
            None => None,
        },
{
    let ghost fs = fields(inner@)->0;
    if tag == LITE_DATA {
        let tags: [u8; 4] = [DATA_PAYLOAD, 0, 0, 0];
        proof {
            assert(tags@ =~= seq![DATA_PAYLOAD, 0, 0, 0]);
            assert forall|t: u8| t != 0 && tags@.contains(t) <==> seq![DATA_PAYLOAD].contains(t) by {
                lemma_one(DATA_PAYLOAD, t);
                lemma_four(DATA_PAYLOAD, 0, 0, 0, t);
            }
            lemma_allowed(fs, tags, seq![DATA_PAYLOAD]);
        }
        return match read_message(inner, &tags) {
            Some(vs) => {
                proof {
                    lemma_value(inner@, fs, tags@[0], vs@[0]);
                }
                Some(Fast::Data { slot, payload: bytes_or_none(inner, &vs[0]) })
            },
            None => None,
        };
    }
    if tag == LITE_ORDERED {
        let tags: [u8; 4] = [ORDERED_FLOW, ORDERED_SEQ, ORDERED_PAYLOAD, 0];
        proof {
            assert(tags@ =~= seq![ORDERED_FLOW, ORDERED_SEQ, ORDERED_PAYLOAD, 0]);
            let list = seq![ORDERED_FLOW, ORDERED_SEQ, ORDERED_PAYLOAD];
            assert forall|t: u8| t != 0 && tags@.contains(t) <==> list.contains(t) by {
                lemma_three(ORDERED_FLOW, ORDERED_SEQ, ORDERED_PAYLOAD, t);
                lemma_four(ORDERED_FLOW, ORDERED_SEQ, ORDERED_PAYLOAD, 0, t);
            }
            lemma_allowed(fs, tags, list);
        }
        return match read_message(inner, &tags) {
            Some(vs) => {
                proof {
                    lemma_value(inner@, fs, tags@[0], vs@[0]);
                    lemma_value(inner@, fs, tags@[1], vs@[1]);
                    lemma_value(inner@, fs, tags@[2], vs@[2]);
                }
                Some(
                    Fast::Ordered {
                        slot,
                        flow: lowest_32(number_or_zero(&vs[0])),
                        seq: number_or_zero(&vs[1]),
                        payload: bytes_or_none(inner, &vs[2]),
                    },
                )
            },
            None => None,
        };
    }
    let tags: [u8; 4] = [WRAPPED_SEQ, WRAPPED_PAYLOAD, WRAPPED_CLIENT, WRAPPED_FLOW];
    proof {
        let list = seq![WRAPPED_SEQ, WRAPPED_PAYLOAD, WRAPPED_CLIENT, WRAPPED_FLOW];
        assert(tags@ =~= list);
        assert forall|t: u8| t != 0 && tags@.contains(t) <==> list.contains(t) by {
            lemma_four(WRAPPED_SEQ, WRAPPED_PAYLOAD, WRAPPED_CLIENT, WRAPPED_FLOW, t);
        }
        lemma_allowed(fs, tags, list);
    }
    match read_message(inner, &tags) {
        Some(vs) => {
            proof {
                lemma_value(inner@, fs, tags@[0], vs@[0]);
                lemma_value(inner@, fs, tags@[1], vs@[1]);
                lemma_value(inner@, fs, tags@[2], vs@[2]);
                lemma_value(inner@, fs, tags@[3], vs@[3]);
            }
            Some(
                Fast::Wrapped {
                    slot,
                    seq: number_or_zero(&vs[0]),
                    payload: bytes_or_none(inner, &vs[1]),
                    client_id: lowest_32(number_or_zero(&vs[2])),
                    flow: match &vs[3] {
                        Some(v) => Some(lowest_32(v.number)),
                        None => None,
                    },
                },
            )
        },
        None => None,
    }
}

/// Reads an unmasked message: `Some` only if it is exactly a `Lite` with a data packet, without
/// unknown and without repeated fields.
pub fn parse<'a>(buf: &'a [u8]) -> (fast: Option<Fast<'a>>)
    ensures
        (match fast {
            Some(f) => Some(f@),
            None => None,
        }) == parsed(buf@),
{
    let tags: [u8; 4] = [PEER_LITE, 0, 0, 0];
    let ghost top = fields(buf@)->0;
    proof {
        assert(tags@ =~= seq![PEER_LITE, 0, 0, 0]);
        assert forall|t: u8| t != 0 && tags@.contains(t) <==> t == PEER_LITE by {
            lemma_four(PEER_LITE, 0, 0, 0, t);
        }
        if fields(buf@) is Some && top.len() == 1 && top[0].tag == PEER_LITE {
            assert(forall|i: int| 0 <= i < top.len() ==> (#[trigger] top[i]).tag == PEER_LITE);
        }
    }
    let lite: &'a [u8] = match read_message(buf, &tags) {
        Some(vs) => {
            proof {
                lemma_value(buf@, top, tags@[0], vs@[0]);
                if top.len() > 1 {
                    assert(top[0].tag == PEER_LITE && top[1].tag == PEER_LITE);
                }
                if present(top, PEER_LITE) {
                    let i = choose|i: int| 0 <= i < top.len() && (#[trigger] top[i]).tag == PEER_LITE;
                    assert(i == 0);
                }
            }
            if vs[0].is_none() {
                return None;
            }
            bytes_or_none(buf, &vs[0])
        },
        None => {
            return None;
        },
    };
    assert(field(top, PEER_LITE) == top[0]);
    let list: [u8; 4] = [LITE_SLOT, LITE_DATA, LITE_WRAPPED, LITE_ORDERED];
    let ghost fs = fields(lite@)->0;
    proof {
        let allowed = seq![LITE_SLOT, LITE_DATA, LITE_WRAPPED, LITE_ORDERED];
        assert(list@ =~= allowed);
        assert forall|t: u8| t != 0 && list@.contains(t) <==> allowed.contains(t) by {
            lemma_four(LITE_SLOT, LITE_DATA, LITE_WRAPPED, LITE_ORDERED, t);
        }
        lemma_allowed(fs, list, allowed);
    }
    match read_message(lite, &list) {
        Some(vs) => {
            proof {
                lemma_value(lite@, fs, list@[0], vs@[0]);
                lemma_value(lite@, fs, list@[1], vs@[1]);
                lemma_value(lite@, fs, list@[2], vs@[2]);
                lemma_value(lite@, fs, list@[3], vs@[3]);
            }
            let slot: u32 = lowest_32(number_or_zero(&vs[0]));
            let (data, wrapped, ordered) = (vs[1].is_some(), vs[2].is_some(), vs[3].is_some());
            if data && !wrapped && !ordered {
                parse_body(slot, LITE_DATA, bytes_or_none(lite, &vs[1]))
            } else if wrapped && !data && !ordered {
                parse_body(slot, LITE_WRAPPED, bytes_or_none(lite, &vs[2]))
            } else if ordered && !data && !wrapped {
                parse_body(slot, LITE_ORDERED, bytes_or_none(lite, &vs[3]))
            } else {
                None
            }
        },
        None => None,
    }
}

/// A field that is read is read the same whatever follows.
proof fn lemma_field_extended(s: Seq<u8>, more: Seq<u8>)
    requires
        first_field(s) is Some,
    ensures
        first_field(s + more) == first_field(s),
{
    assert((s + more)[0] == s[0]);
    assert((s + more).drop_first() =~= s.drop_first() + more);
    lemma_read_extended(s.drop_first(), more);
    let (v, n) = read_varint(s.drop_first())->0;
    if s[0] % 8 == 2 {
        assert((s + more).subrange(1 + n as int, 1 + n + v) =~= s.subrange(1 + n as int, 1 + n + v));
    }
}

/// A message ends where its bytes end: no bytes can follow one that parses.
pub proof fn law_nothing_follows_a_message(buf: Seq<u8>, more: Seq<u8>)
    requires
        parsed(buf) is Some,
        more.len() > 0,
    ensures
        parsed(buf + more) is None,
{
    let top = fields(buf)->0;
    let (f, n) = first_field(buf)->0;
    let rest = fields(buf.skip(n as int))->0;
    assert(top == seq![f] + rest);
    assert(rest.len() == 0);
    assert(buf.skip(n as int).len() == 0);
    lemma_field_extended(buf, more);
    assert((buf + more).skip(n as int) =~= more);
    if let Some(after) = fields(more) {
        assert(after.len() > 0);
        assert(fields(buf + more) == Some(seq![f] + after));
    }
}

/// No proper beginning of a message that parses is a message itself.
pub proof fn law_no_beginning_of_a_message_parses(buf: Seq<u8>, n: int)
    requires
        parsed(buf) is Some,
        0 <= n < buf.len(),
    ensures
        parsed(buf.take(n)) is None,
{
    if parsed(buf.take(n)) is Some {
        law_nothing_follows_a_message(buf.take(n), buf.skip(n));
        assert(buf.take(n) + buf.skip(n) =~= buf);
    }
}

} // verus!
