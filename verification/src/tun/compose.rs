//! Building IP packets: the answer to a ping, and a UDP packet.

use crate::bytes::{be16, be_bytes, lemma_be_bytes, put_be};
use crate::tun::checksum::{
    checksum_of, law_checksum_in_place_verifies, sum_of, with_word,
};
use crate::tun::packet::{header_len, inspect, inspected, ipv4_info, Proto};
use vstd::prelude::*;

verus! {

/// Length of the answer: that of the request by its header, but not more than there is.
pub open spec fn pong_len(request: Seq<u8>) -> int {
    let len = be16(request[2], request[3]);
    if len <= request.len() {
        len as int
    } else {
        request.len() as int
    }
}

/// The packet is an ICMPv4 echo request that reaches at least up to its checksum.
pub open spec fn is_ping(request: Seq<u8>) -> bool {
    &&& inspected(request) matches Some(info)
    &&& info.version == 4
    &&& info.proto == Proto::Icmp
    &&& request.len() >= header_len(request[0]) + 8
    &&& request[header_len(request[0])] == 8
    &&& pong_len(request) >= header_len(request[0]) + 4
}

/// The answer before its checksums: the addresses change places, the time to live starts anew,
/// the type is 0, and the places of the checksums are zero.
pub open spec fn unsummed(request: Seq<u8>) -> Seq<u8> {
    let ihl = header_len(request[0]);
    Seq::new(
        pong_len(request) as nat,
        |i: int|
            if 12 <= i < 16 {
                request[i + 4]
            } else if 16 <= i < 20 {
                request[i - 4]
            } else if i == 8 {
                64
            } else if i == 10 || i == 11 || i == ihl || i == ihl + 2 || i == ihl + 3 {
                0
            } else {
                request[i]
            },
    )
}

/// A sequence with a 16-bit number at `at`.
pub open spec fn with_number(s: Seq<u8>, at: int, n: u16) -> Seq<u8> {
    with_word(s, at, (n / 256) as u8, (n % 256) as u8)
}

/// The answer to an echo request.
pub open spec fn pong(request: Seq<u8>) -> Seq<u8> {
    let ihl = header_len(request[0]);
    let plain = unsummed(request);
    with_number(
        with_number(plain, 10, sum_of(plain.take(ihl))),
        ihl + 2,
        sum_of(plain.skip(ihl)),
    )
}

/// Writes a 16-bit number.
fn put_word(out: &mut [u8], at: usize, n: u16)
    requires
        at + 1 < old(out)@.len(),
    ensures
        final(out)@ == with_number(old(out)@, at as int, n),
{
    let size: usize = out.len();
    out[at] = (n / 256) as u8;
    out[at + 1] = (n % 256) as u8;
    assert(out@ =~= with_number(old(out)@, at as int, n));
}

/// Length of the header and of the answer, if the packet is an echo request.
fn ping_lengths(request: &[u8]) -> (lengths: Option<(usize, usize)>)
    ensures
        lengths is Some <==> is_ping(request@),
        lengths matches Some((ihl, len)) ==> ihl == header_len(request@[0]) && len == pong_len(request@),
{
    let info = match inspect(request) {
        Some(info) => info,
        None => {
            return None;
        },
    };
    let ihl: usize = header_bytes(request);
    if info.version != 4 || info.proto != Proto::Icmp || request.len() < ihl + 8 || request[ihl] != 8 {
        return None;
    }
    let len: usize = if info.len < request.len() {
        info.len
    } else {
        request.len()
    };
    if len < ihl + 4 {
        return None;
    }
    Some((ihl, len))
}

fn header_bytes(packet: &[u8]) -> (n: usize)
    requires
        packet@.len() > 0,
    ensures
        n == header_len(packet@[0]),
        n <= 60,
{
    (packet[0] % 16) as usize * 4
}

/// Writes the answer to an ICMPv4 echo request; its length, or `None` if the packet is no echo
/// request or the answer does not fit.
pub fn icmp_echo_reply(request: &[u8], out: &mut [u8]) -> (len: Option<usize>)
    ensures
        len is Some <==> is_ping(request@) && pong_len(request@) <= old(out)@.len(),
        len matches Some(n) ==> {
            &&& n == pong_len(request@)
            &&& final(out)@ == pong(request@) + old(out)@.skip(pong_len(request@))
        },
        len is None ==> final(out)@ == old(out)@,
{
    let (ihl, len): (usize, usize) = match ping_lengths(request) {
        Some(lengths) => lengths,
        None => {
            return None;
        },
    };
    if out.len() < len {
        return None;
    }
    let ghost start = out@;
    let ghost plain = unsummed(request@);
    let ghost rest = start.skip(pong_len(request@));
    let mut i: usize = 0;
    while i < len
        invariant
            i <= len <= start.len() == out@.len(),
            len <= request@.len(),
            ihl == header_len(request@[0]),
            20 <= ihl,
            ihl + 4 <= len == pong_len(request@),
            plain == unsummed(request@),
            forall|k: int| 0 <= k < start.len() ==> #[trigger] out@[k] == if k < i {
                plain[k]
            } else {
                start[k]
            },
        decreases len - i,
    {
        let b: u8 = if 12 <= i && i < 16 {
            request[i + 4]
        } else if 16 <= i && i < 20 {
            request[i - 4]
        } else if i == 8 {
            64
        } else if i == 10 || i == 11 || i == ihl || i == ihl + 2 || i == ihl + 3 {
            0
        } else {
            request[i]
        };
        out[i] = b;
        i += 1;
    }
    assert(out@ =~= plain + rest);
    let head_sum: u16 = checksum_of(&*out, 0, ihl);
    let body_sum: u16 = checksum_of(&*out, ihl, len);
    proof {
        lemma_parts(plain, rest, ihl, len);
    }
    put_word(out, 10, head_sum);
    put_word(out, ihl + 2, body_sum);
    assert(out@ =~= pong(request@) + rest);
    Some(len)
}

proof fn lemma_parts(plain: Seq<u8>, rest: Seq<u8>, ihl: usize, len: usize)
    requires
        ihl <= len,
        plain.len() == len,
    ensures
        (plain + rest).subrange(0, ihl as int) == plain.take(ihl as int),
        (plain + rest).subrange(ihl as int, len as int) == plain.skip(ihl as int),
{
    assert((plain + rest).subrange(0, ihl as int) =~= plain.take(ihl as int));
    assert((plain + rest).subrange(ihl as int, len as int) =~= plain.skip(ihl as int));
}

/// The answer to a ping is valid: both checksums verify, the addresses have changed places, the
/// type is that of an answer, and what was sent comes back as it is.
pub proof fn law_pong_is_valid(request: Seq<u8>)
    requires
        is_ping(request),
    ensures
        ({
            let ihl = header_len(request[0]);
            &&& sum_of(pong(request).take(ihl)) == 0
            &&& sum_of(pong(request).skip(ihl)) == 0
            &&& pong(request)[ihl] == 0
            &&& forall|i: int| ihl + 4 <= i < pong_len(request) ==> pong(request)[i] == request[i]
            &&& inspected(pong(request)) matches Some(info)
            &&& inspected(request) matches Some(asked)
            &&& info.src == asked.dst
            &&& info.dst == asked.src
        }),
{
    let ihl = header_len(request[0]);
    let plain = unsummed(request);
    let head = sum_of(plain.take(ihl));
    let body = sum_of(plain.skip(ihl));
    let reply = pong(request);
    law_checksum_in_place_verifies(plain.take(ihl), 10);
    law_checksum_in_place_verifies(plain.skip(ihl), 2);
    assert(reply.take(ihl) =~= with_number(plain.take(ihl), 10, head));
    assert(reply.skip(ihl) =~= with_number(plain.skip(ihl), 2, body));
    assert(reply.subrange(12, 16) =~= request.subrange(16, 20));
    assert(reply.subrange(16, 20) =~= request.subrange(12, 16));
    assert(reply[0] == request[0]);
}

/// The IPv4 header of a UDP packet of `len` bytes, its checksum zero.
pub open spec fn udp_header(src: u32, dst: u32, len: nat) -> Seq<u8> {
    seq![0x45u8, 0] + be_bytes(len, 2) + seq![0u8, 0, 0x40, 0, 64, 17, 0, 0] + be_bytes(src as nat, 4) + be_bytes(
        dst as nat,
        4,
    )
}

/// An IPv4 packet with a UDP datagram; the UDP checksum is zero, that is, not computed.
pub open spec fn udp_packet(src: (u32, u16), dst: (u32, u16), payload: Seq<u8>) -> Seq<u8> {
    let header = udp_header(src.0, dst.0, 28 + payload.len());
    with_number(header, 10, sum_of(header)) + be_bytes(src.1 as nat, 2) + be_bytes(dst.1 as nat, 2) + be_bytes(
        8 + payload.len(),
        2,
    ) + seq![0u8, 0] + payload
}

/// Writes an IPv4 packet with a UDP datagram; its length, or `None` if it does not fit.
pub fn ipv4_udp(src: (u32, u16), dst: (u32, u16), payload: &[u8], out: &mut [u8]) -> (len: Option<usize>)
    ensures
        len is Some <==> 28 + payload@.len() <= old(out)@.len(),
        len matches Some(n) ==> {
            &&& n == 28 + payload@.len()
            &&& final(out)@ == udp_packet(src, dst, payload@) + old(out)@.skip(n as int)
        },
        len is None ==> final(out)@ == old(out)@,
{
    let size: usize = out.len();
    let given: usize = payload.len();
    if size < 28 || size - 28 < given {
        return None;
    }
    let len: usize = 28 + given;
    let mut head: Vec<u8> = Vec::new();
    head.push(0x45);
    head.push(0);
    put_be(&mut head, len as u128, 2);
    head.push(0);
    head.push(0);
    head.push(0x40);
    head.push(0);
    head.push(64);
    head.push(17);
    head.push(0);
    head.push(0);
    put_be(&mut head, src.0 as u128, 4);
    put_be(&mut head, dst.0 as u128, 4);
    let ghost header = udp_header(src.0, dst.0, len as nat);
    proof {
        lemma_be_bytes(len as nat, 2);
        lemma_be_bytes(src.0 as nat, 4);
        lemma_be_bytes(dst.0 as nat, 4);
        assert(head@ =~= header);
        assert(head@.subrange(0, 20) =~= header);
    }
    let sum: u16 = checksum_of(head.as_slice(), 0, 20);
    put_word(head.as_mut_slice(), 10, sum);
    put_be(&mut head, src.1 as u128, 2);
    put_be(&mut head, dst.1 as u128, 2);
    put_be(&mut head, (8 + given) as u128, 2);
    head.push(0);
    head.push(0);
    proof {
        lemma_be_bytes(src.1 as nat, 2);
        lemma_be_bytes(dst.1 as nat, 2);
        lemma_be_bytes((8 + given) as nat, 2);
        assert(head@ + payload@ =~= udp_packet(src, dst, payload@));
        assert(head@.len() == 28);
    }
    let ghost start = out@;
    let mut i: usize = 0;
    while i < len
        invariant
            i <= len <= start.len() == out@.len(),
            len == 28 + payload@.len(),
            head@.len() == 28,
            forall|k: int| 0 <= k < start.len() ==> #[trigger] out@[k] == if k < i {
                (head@ + payload@)[k]
            } else {
                start[k]
            },
        decreases len - i,
    {
        out[i] = if i < 28 {
            head[i]
        } else {
            payload[i - 28]
        };
        i += 1;
    }
    assert(out@ =~= head@ + payload@ + start.skip(len as int));
    Some(len)
}

/// The parts of a packet that [`ipv4_udp`] writes, at their places.
#[verifier::spinoff_prover]
proof fn lemma_udp_places(src: (u32, u16), dst: (u32, u16), payload: Seq<u8>)
    requires
        28 + payload.len() <= 65535,
    ensures
        ({
            let p = udp_packet(src, dst, payload);
            let header = udp_header(src.0, dst.0, 28 + payload.len());
            &&& p.len() == 28 + payload.len()
            &&& header.len() == 20
            &&& header[10] == 0 && header[11] == 0
            &&& p.take(20) == with_number(header, 10, sum_of(header))
            &&& p.subrange(12, 16) == be_bytes(src.0 as nat, 4)
            &&& p.subrange(16, 20) == be_bytes(dst.0 as nat, 4)
            &&& p[0] == 0x45 && p[6] == 0x40 && p[7] == 0 && p[9] == 17
            &&& p[2] == be_bytes(p.len(), 2)[0] && p[3] == be_bytes(p.len(), 2)[1]
            &&& p[20] == be_bytes(src.1 as nat, 2)[0] && p[21] == be_bytes(src.1 as nat, 2)[1]
            &&& p[22] == be_bytes(dst.1 as nat, 2)[0] && p[23] == be_bytes(dst.1 as nat, 2)[1]
            &&& p.skip(28) == payload
        }),
{
    let p = udp_packet(src, dst, payload);
    let header = udp_header(src.0, dst.0, 28 + payload.len());
    let len = 28 + payload.len();
    lemma_be_bytes(len, 2);
    lemma_be_bytes(src.0 as nat, 4);
    lemma_be_bytes(dst.0 as nat, 4);
    lemma_be_bytes(src.1 as nat, 2);
    lemma_be_bytes(dst.1 as nat, 2);
    lemma_be_bytes(8 + payload.len(), 2);
    assert(p.take(20) =~= with_number(header, 10, sum_of(header)));
    assert(p.subrange(12, 16) =~= be_bytes(src.0 as nat, 4));
    assert(p.subrange(16, 20) =~= be_bytes(dst.0 as nat, 4));
    assert(p.skip(28) =~= payload);
}

/// The header checksum of a packet that [`ipv4_udp`] writes verifies, and the header says what
/// the packet was made of.
#[verifier::spinoff_prover]
pub proof fn law_udp_packet_is_read_back(src: (u32, u16), dst: (u32, u16), payload: Seq<u8>)
    requires
        28 + payload.len() <= 65535,
    ensures
        sum_of(udp_packet(src, dst, payload).take(20)) == 0,
        inspected(udp_packet(src, dst, payload)) matches Some(info) && info.version == 4 && info.proto
            == Proto::Udp && info.src == crate::net::Ip::V4(src.0) && info.dst == crate::net::Ip::V4(dst.0)
            && info.ports == Some((src.1, dst.1)) && info.len == 28 + payload.len(),
        udp_packet(src, dst, payload).skip(28) == payload,
{
    let p = udp_packet(src, dst, payload);
    lemma_udp_places(src, dst, payload);
    law_checksum_in_place_verifies(udp_header(src.0, dst.0, 28 + payload.len()), 10);
    lemma_be_bytes(src.0 as nat, 4);
    lemma_be_bytes(dst.0 as nat, 4);
    crate::bytes::lemma_pow256_8();
    lemma_be16(p.len());
    lemma_be16(src.1 as nat);
    lemma_be16(dst.1 as nat);
    assert(be16(0x40, 0) == 0x4000);
    assert(inspected(p) == Some(ipv4_info(p)));
}

proof fn lemma_be16(n: nat)
    requires
        n <= 65535,
    ensures
        be_bytes(n, 2).len() == 2,
        be16(be_bytes(n, 2)[0], be_bytes(n, 2)[1]) == n,
{
    reveal_with_fuel(be_bytes, 3);
}

/// The packet is a ping, byte by byte: an IPv4 header of 20 bytes or more that is all there, the
/// protocol of control messages, eight bytes behind the header, and the type 8 there.
pub open spec fn asks(request: Seq<u8>) -> bool {
    let header = (request[0] % 16) * 4;
    &&& request.len() > 0
    &&& request[0] / 16 == 4
    &&& header >= 20
    &&& request.len() >= header + 8
    &&& request[9] == 1 || request[9] == 58
    &&& request[header] == 8
    &&& request[2] * 256 + request[3] >= header + 4
}

/// The lower one of two lengths.
pub open spec fn shorter(a: int, b: nat) -> int {
    if a <= b {
        a
    } else {
        b as int
    }
}

/// A ping is answered if the answer fits, and nothing else is. The answer is as long as the packet
/// says, or as what there is of it; it goes back to where the ping came from, may travel through
/// 64 routers, is of type 0, and both of its checksums verify. Every other byte is that of the
/// ping.
pub proof fn law_pings_are_answered(request: &[u8], i: int)
    ensures
        forall|out: &mut [u8], len: Option<usize>| #[trigger]
            call_ensures(icmp_echo_reply, (request, out), len) ==> {
                let (asked, answer) = (request@, final(out)@);
                let header = (asked[0] % 16) * 4;
                let said = asked[2] * 256 + asked[3];
                let n = shorter(said, asked.len());
                &&& len is Some <==> asks(asked) && n <= (*out)@.len()
                &&& len is None ==> answer == (*out)@
                &&& len matches Some(size) ==> {
                    &&& size == n
                    &&& answer.len() == (*out)@.len()
                    &&& answer.subrange(12, 16) == asked.subrange(16, 20)
                    &&& answer.subrange(16, 20) == asked.subrange(12, 16)
                    &&& answer[8] == 64
                    &&& answer[header] == 0
                    &&& sum_of(answer.take(header)) == 0
                    &&& sum_of(answer.subrange(header, n)) == 0
                    &&& 0 <= i < n && i != 8 && i != 10 && i != 11 && !(12 <= i < 20) && i != header && i
                        != header + 2 && i != header + 3 ==> answer[i] == asked[i]
                    &&& n <= i < answer.len() ==> answer[i] == (*out)@[i]
                }
            },
{
    assert forall|out: &mut [u8], len: Option<usize>| #[trigger]
        call_ensures(icmp_echo_reply, (request, out), len) implies {
        let (asked, answer) = (request@, final(out)@);
        let header = (asked[0] % 16) * 4;
        let said = asked[2] * 256 + asked[3];
        let n = shorter(said, asked.len());
        &&& len is Some <==> asks(asked) && n <= (*out)@.len()
        &&& len is None ==> answer == (*out)@
        &&& len matches Some(size) ==> {
            &&& size == n
            &&& answer.len() == (*out)@.len()
            &&& answer.subrange(12, 16) == asked.subrange(16, 20)
            &&& answer.subrange(16, 20) == asked.subrange(12, 16)
            &&& answer[8] == 64
            &&& answer[header] == 0
            &&& sum_of(answer.take(header)) == 0
            &&& sum_of(answer.subrange(header, n)) == 0
            &&& 0 <= i < n && i != 8 && i != 10 && i != 11 && !(12 <= i < 20) && i != header && i != header
                + 2 && i != header + 3 ==> answer[i] == asked[i]
            &&& n <= i < answer.len() ==> answer[i] == (*out)@[i]
        }
    } by {
        let (asked, answer) = (request@, final(out)@);
        assert(is_ping(asked) <==> asks(asked));
        if len is Some {
            let header = (asked[0] % 16) * 4;
            let n = pong_len(asked);
            law_pong_is_valid(asked);
            let reply = pong(asked);
            assert(answer.take(header) =~= reply.take(header));
            assert(answer.subrange(header, n) =~= reply.skip(header));
            assert(answer.subrange(12, 16) =~= asked.subrange(16, 20));
            assert(answer.subrange(16, 20) =~= asked.subrange(12, 16));
        }
    }
}

/// A UDP packet, byte by byte: an IPv4 header of 20 bytes that may not be cut up, may travel through
/// 64 routers and has a checksum that verifies; the ports, the length and no checksum of the
/// datagram; and the payload. It is written if it fits, and what lies behind it stays.
pub proof fn law_udp_packets_byte_by_byte(src: (u32, u16), dst: (u32, u16), payload: &[u8])
    requires
        28 + payload@.len() <= 65535,
    ensures
        forall|out: &mut [u8], len: Option<usize>| #[trigger]
            call_ensures(ipv4_udp, (src, dst, payload, out), len) ==> {
                let (before, after) = ((*out)@, final(out)@);
                let n = 28 + payload@.len();
                &&& len is None <==> n > before.len()
                &&& len is None ==> after == before
                &&& len matches Some(size) ==> {
                    &&& size == n
                    &&& after[0] == 0x45 && after[1] == 0
                    &&& after[2] * 256 + after[3] == n
                    &&& after[4] == 0 && after[5] == 0 && after[6] == 0x40 && after[7] == 0
                    &&& after[8] == 64 && after[9] == 17
                    &&& sum_of(after.take(20)) == 0
                    &&& after[12] * 16777216 + after[13] * 65536 + after[14] * 256 + after[15] == src.0
                    &&& after[16] * 16777216 + after[17] * 65536 + after[18] * 256 + after[19] == dst.0
                    &&& after[20] * 256 + after[21] == src.1
                    &&& after[22] * 256 + after[23] == dst.1
                    &&& after[24] * 256 + after[25] == 8 + payload@.len()
                    &&& after[26] == 0 && after[27] == 0
                    &&& after.subrange(28, n as int) == payload@
                    &&& after.skip(n as int) == before.skip(n as int)
                }
            },
{
    let n = 28 + payload@.len();
    let header = udp_header(src.0, dst.0, n);
    lemma_two_bytes(n);
    lemma_two_bytes(8 + payload@.len());
    lemma_two_bytes(src.1 as nat);
    lemma_two_bytes(dst.1 as nat);
    lemma_four_bytes(src.0);
    lemma_four_bytes(dst.0);
    law_checksum_in_place_verifies(header, 10);
    assert forall|out: &mut [u8], len: Option<usize>| #[trigger]
        call_ensures(ipv4_udp, (src, dst, payload, out), len) implies {
        let (before, after) = ((*out)@, final(out)@);
        let n = 28 + payload@.len();
        &&& len is None <==> n > before.len()
        &&& len is None ==> after == before
        &&& len matches Some(size) ==> {
            &&& size == n
            &&& after[0] == 0x45 && after[1] == 0
            &&& after[2] * 256 + after[3] == n
            &&& after[4] == 0 && after[5] == 0 && after[6] == 0x40 && after[7] == 0
            &&& after[8] == 64 && after[9] == 17
            &&& sum_of(after.take(20)) == 0
            &&& after[12] * 16777216 + after[13] * 65536 + after[14] * 256 + after[15] == src.0
            &&& after[16] * 16777216 + after[17] * 65536 + after[18] * 256 + after[19] == dst.0
            &&& after[20] * 256 + after[21] == src.1
            &&& after[22] * 256 + after[23] == dst.1
            &&& after[24] * 256 + after[25] == 8 + payload@.len()
            &&& after[26] == 0 && after[27] == 0
            &&& after.subrange(28, n as int) == payload@
            &&& after.skip(n as int) == before.skip(n as int)
        }
    } by {
        let (before, after) = ((*out)@, final(out)@);
        if len is Some {
            let summed = with_number(header, 10, sum_of(header));
            assert(after.take(20) =~= summed);
            assert(summed[0] == 0x45 && summed[9] == 17);
            assert(after.subrange(28, n as int) =~= payload@);
            assert(after.skip(n as int) =~= before.skip(n as int));
        }
    }
}

proof fn lemma_two_bytes(x: nat)
    requires
        x <= 65535,
    ensures
        be_bytes(x, 2).len() == 2,
        be_bytes(x, 2)[0] * 256 + be_bytes(x, 2)[1] == x,
{
    reveal_with_fuel(be_bytes, 3);
}

proof fn lemma_four_bytes(x: u32)
    ensures
        ({
            let b = be_bytes(x as nat, 4);
            &&& b.len() == 4
            &&& b[0] * 16777216 + b[1] * 65536 + b[2] * 256 + b[3] == x
        }),
{
    reveal_with_fuel(be_bytes, 5);
}

} // verus!
