//! Keys, packets and the wire format.

use chacha20poly1305::aead::AeadInPlace;
use chacha20poly1305::{ChaCha20Poly1305, KeyInit, Nonce};
use hmac::Mac;
use home_proxy::auth::{peer_name, PairSecret, AUTH_LEN, SIGNED_PREFIX};
use home_proxy::codec::{decode, encode, mask, random_key, MASKED_PREFIX};
use home_proxy::guid::Guid;
use home_proxy::link_id::PeerLinkId;
use home_proxy::pool::{stats, Bank, Packet, PACKET_CAP, POOL_SIZE};
use home_proxy::seal::{Opener, RecvKeys, ReplayWindow, Sealer, SendKeys};
use home_proxy::varint::{get_varint, varint_len};
use home_proxy::wire::write::{encode_data, encode_ordered, encode_wrapped};
use home_proxy::wire::{parse, Fast};
use home_proxy::xor::{expand, xor_baseline, xor_in_place, xor_wide, XorKey, KEY_LEN};
use prost::encoding::{encode_key, encode_varint, WireType};
use sha2::Digest;

fn guid(text: &str) -> Guid {
    Guid::parse(text).unwrap()
}

#[test]
fn guid_text_round_trip_and_bytes() {
    let id = guid("1A2B3C4D-0000-4000-8000-0000000000fe");
    assert_eq!(id.text(), "1a2b3c4d-0000-4000-8000-0000000000fe");
    assert_eq!(id.value, 0x1a2b3c4d_0000_4000_8000_0000000000feu128);
    assert_eq!(id.to_bytes(), id.value.to_be_bytes());
    assert_eq!(Guid::parse("not a guid"), None);
    assert_eq!(Guid::parse(""), None);
}

#[test]
fn a_guid_is_read_in_each_of_its_forms() {
    let value = 0x67e55044_10b1_426f_9247_bb680e5fe0c8;
    let hyphens = "67e55044-10b1-426f-9247-bb680e5fe0c8";
    let forms = ["67e5504410b1426f9247bb680e5fe0c8".to_string(), hyphens.to_string(), format!("{{{hyphens}}}"), format!("urn:uuid:{hyphens}")];
    for form in &forms {
        assert_eq!(Guid::parse(form), Some(Guid { value }), "{form}");
        assert_eq!(Guid::parse(&form.to_uppercase()), Some(Guid { value }), "{form}");
        assert_eq!(Guid::parse(&form[1..]), None);
        assert_eq!(Guid::parse(&format!("{form}0")), None);
        assert_eq!(Guid::parse(&format!(" {form}")), None);
        assert_eq!(Guid::parse(&form.replace('8', "g")), None);
        assert_eq!(Guid::parse(&form.replace('8', "é")), None);
    }
    assert_eq!(Guid::parse("67e5504-410b1-426f-9247-bb680e5fe0c8"), None);
    assert_eq!(Guid::parse(&format!("({hyphens})")), None);
    assert_eq!(Guid::parse(&format!("urn-uuid:{hyphens}")), None);
    assert_eq!(Guid::parse("{67e5504410b1426f9247bb680e5fe0c8}"), None);
    assert_eq!(Guid::parse(""), None);
    assert_eq!(Guid { value }.text(), hyphens);
}

#[test]
fn random_guids_are_of_version_four_and_differ() {
    let (a, b) = (Guid::random(), Guid::random());
    assert_ne!(a, b);
    for id in [a, b] {
        let text = id.text();
        assert_eq!(&text[14..15], "4");
        assert!(["8", "9", "a", "b"].contains(&&text[19..20]));
    }
}

#[test]
fn name_is_the_first_group_of_the_guid() {
    let id = guid("1a2b3c4d-0000-4000-8000-000000000000");
    assert_eq!(peer_name(&id), "1a2b3c4d");
}

#[test]
fn the_pair_secret_is_symmetric_and_pair_specific() {
    let (a, b, c) = (Guid::random(), Guid::random(), Guid::random());
    assert_eq!(PairSecret::new(a, b).as_bytes(), PairSecret::new(b, a).as_bytes());
    assert_ne!(PairSecret::new(a, b).as_bytes(), PairSecret::new(a, c).as_bytes());
    let pair = PairSecret::new(a, b);
    let (s1, s2) = (Guid::random(), Guid::random());
    assert_ne!(pair.link_key(s1, s2), pair.link_key(s2, s1), "each direction has its own key");
    assert_ne!(pair.xor_key(s1), pair.xor_key(s2));
}

fn sha256(parts: &[&[u8]]) -> [u8; 32] {
    let mut digest = sha2::Sha256::new();
    for part in parts {
        digest.update(part);
    }
    digest.finalize().into()
}

/// The secret and the keys are SHA-256 digests, a record is signed with HMAC-SHA256 and a packet
/// with ChaCha20-Poly1305: the same numbers computed with the crates directly.
#[test]
fn secrets_and_signatures_are_those_of_the_crates() {
    let (a, b) = (Guid { value: 5 }, Guid { value: 9 });
    let pair = PairSecret::new(b, a);
    let secret = sha256(&[b"home-proxy/pair/v1", &a.to_bytes(), &b.to_bytes()]);
    assert_eq!(pair.as_bytes(), &secret);
    let link = sha256(&[b"home-proxy/v1/link\0", &secret, &b.to_bytes(), &a.to_bytes()]);
    assert_eq!(pair.link_key(b, a), link);
    assert_eq!(pair.xor_key(a)[..], sha256(&[b"home-proxy/v1/xor\0", &secret, &a.to_bytes()])[..16]);
    let (xor, auth) = pair.bootstrap();
    assert_eq!(xor[..], sha256(&[b"home-proxy/v1/bootstrap-xor\0", &secret])[..16]);
    assert_eq!(auth, sha256(&[b"home-proxy/v1/bootstrap-auth\0", &secret]));

    let record_key = sha256(&[b"home-proxy/v1/rendezvous\0", &secret]);
    let mut mac = <hmac::Hmac<sha2::Sha256> as Mac>::new_from_slice(&record_key).unwrap();
    mac.update(b"record");
    assert_eq!(pair.sign_rendezvous(b"record")[..], mac.finalize().into_bytes()[..16]);

    let packet = Sealer::new(&link).seal_vec(&b"message".to_vec());
    let cipher = ChaCha20Poly1305::new((&link).into());
    let nonce = [0u8, 0, 0, 0, 0, 0, 0, 0, 7, 0, 0, 0];
    let tag = cipher.encrypt_in_place_detached(&Nonce::from(nonce), b"message", &mut []).unwrap();
    assert_eq!(packet[..16], tag[..]);
    assert_eq!(packet[16..24], [0; 8]);
}

fn sealed(sealer: &mut Sealer, message: &[u8]) -> Vec<u8> {
    sealer.seal_vec(&message.to_vec())
}

#[test]
fn sealed_packets_open_and_tampering_is_detected() {
    let key = PairSecret::new(Guid::random(), Guid::random()).link_key(Guid::random(), Guid::random());
    let (mut sealer, mut opener) = (Sealer::new(&key), Opener::new(&key));
    let packet = sealed(&mut sealer, b"ip packet");
    assert_eq!(packet.len(), AUTH_LEN + 9);
    assert_eq!(&packet[AUTH_LEN..], b"ip packet", "the signature leads, the message is as it was");
    assert_eq!(opener.open(&packet), Some(9));

    for i in 0..packet.len() {
        let mut bad = sealed(&mut sealer, b"ip packet");
        bad[i] ^= 1;
        assert_eq!(opener.open(&bad), None, "byte {i}");
    }
    let mut other = Sealer::new(&[7; 32]);
    assert_eq!(opener.open(&sealed(&mut other, b"ip packet")), None, "a foreign key");
    assert_eq!(opener.open(&[0u8; 10]), None, "shorter than a signature");
}

#[test]
fn the_signed_prefix_and_the_length_are_covered_the_tail_is_not() {
    let key = [8u8; 32];
    let (mut sealer, mut opener) = (Sealer::new(&key), Opener::new(&key));
    let message: Vec<u8> = (0..1400).map(|i| i as u8).collect();
    for i in [0, 23, AUTH_LEN, AUTH_LEN + SIGNED_PREFIX - 1] {
        let mut bad = sealed(&mut sealer, &message);
        bad[i] ^= 1;
        assert_eq!(opener.open(&bad), None, "byte {i} is signed");
    }
    let mut shorter = sealed(&mut sealer, &message);
    shorter.pop();
    assert_eq!(opener.open(&shorter), None, "the length is signed: no cutting");
    let mut longer = sealed(&mut sealer, &message);
    longer.push(0);
    assert_eq!(opener.open(&longer), None, "and no lengthening");
    let mut tail = sealed(&mut sealer, &message);
    tail[AUTH_LEN + SIGNED_PREFIX] ^= 1;
    assert_eq!(opener.open(&tail), Some(1400), "the tail is not signed");
}

#[test]
fn replays_are_rejected_but_reordering_within_the_window_is_fine() {
    let key = [3u8; 32];
    let (mut sealer, mut opener) = (Sealer::new(&key), Opener::new(&key));
    let packets: Vec<Vec<u8>> = (0..100u8).map(|i| sealed(&mut sealer, &[i])).collect();
    assert!(opener.open(&packets[5]).is_some());
    assert!(opener.open(&packets[5]).is_none(), "a repetition");
    assert!(opener.open(&packets[2]).is_some(), "out of order, but in the window");
    assert!(opener.open(&packets[99]).is_some());
    assert!(opener.open(&packets[20]).is_none(), "older than the window");
    assert!(opener.open(&packets[40]).is_some());
    assert!(opener.open(&packets[40]).is_none());

    let mut no_window = Opener::without_replay_window(&key);
    assert!(no_window.open(&packets[1]).is_some());
    assert!(no_window.open(&packets[1]).is_some(), "without a window");
}

#[test]
fn random_start_sealers_do_not_start_at_zero() {
    let key = [9u8; 32];
    let a = sealed(&mut Sealer::with_random_start(&key), b"x");
    let b = sealed(&mut Sealer::with_random_start(&key), b"x");
    assert_ne!(a, b, "different counters, different nonces");
    assert!(Opener::without_replay_window(&key).open(&a).is_some());
}

#[test]
fn every_random_start_has_the_mark_of_its_source() {
    for _ in 0..50 {
        let packet = sealed(&mut Sealer::with_random_start(&[9u8; 32]), b"x");
        let counter = u64::from_le_bytes(packet[16..24].try_into().unwrap());
        assert_eq!(counter >> 51 & 15, 4, "{counter:x}");
        assert!(counter > 0 && counter <= u64::MAX / 2);
    }
    let pair = PairSecret::new(Guid { value: 1 }, Guid { value: 2 });
    let packet = sealed(&mut pair.bootstrap_keys().0.sealer, b"x");
    assert_eq!(u64::from_le_bytes(packet[16..24].try_into().unwrap()) >> 51 & 15, 4);
}

#[test]
fn a_sealer_refuses_a_buffer_that_is_too_small() {
    let mut sealer = Sealer::new(&[1u8; 32]);
    let mut buf = [0u8; 30];
    assert_eq!(sealer.seal(&mut buf, 7), None);
    assert_eq!(sealer.seal(&mut buf, 6), Some(30));
    let mut at_half = Sealer::starting_at(&[1u8; 32], &[4, 0, 0, 0, 0, 0, 0, 0, 99]);
    assert_eq!(at_half.seal(&mut buf, 6), Some(30));
    assert_eq!(&buf[16..24], &[2, 0, 0, 0, 0, 0, 0, 0], "half of the first eight bytes");
}

#[test]
fn replay_window_slides() {
    let mut window = ReplayWindow::new();
    assert!(window.fresh(0));
    window.accept(0);
    assert!(!window.fresh(0));
    window.accept(70);
    assert!(!window.fresh(0), "too old");
    assert!(!window.fresh(6));
    assert!(window.fresh(7));
    window.accept(7);
    assert!(!window.fresh(7));
    assert!(window.fresh(71));
}

#[test]
fn rendezvous_signature_checks_bytes_and_pair() {
    let (a, b) = (Guid::random(), Guid::random());
    let pair = PairSecret::new(a, b);
    let signature = pair.sign_rendezvous(b"record");
    assert!(PairSecret::new(b, a).verify_rendezvous(b"record", &signature));
    assert!(!pair.verify_rendezvous(b"recorD", &signature));
    assert!(!PairSecret::new(a, Guid::random()).verify_rendezvous(b"record", &signature));
    assert!(!pair.verify_rendezvous(b"record", &signature[..8]));
}

fn keys(xor: XorKey) -> (SendKeys, RecvKeys) {
    let auth = [5u8; 32];
    (SendKeys { xor, sealer: Sealer::new(&auth) }, RecvKeys { xor, opener: Opener::new(&auth) })
}

fn delimited(tag: u32, body: &[u8]) -> Vec<u8> {
    let mut out = Vec::new();
    encode_key(tag, WireType::LengthDelimited, &mut out);
    encode_varint(body.len() as u64, &mut out);
    out.extend_from_slice(body);
    out
}

fn number(tag: u32, value: u64, out: &mut Vec<u8>) {
    if value != 0 {
        prost::encoding::uint64::encode(tag, &value, out);
    }
}

fn bytes(tag: u32, value: &[u8], out: &mut Vec<u8>) {
    if !value.is_empty() {
        prost::encoding::bytes::encode(tag, &value.to_vec(), out);
    }
}

/// A message through an open hole, as prost writes it.
fn lite(slot: u32, tag: u32, body: &[u8]) -> Vec<u8> {
    let mut inner = Vec::new();
    number(1, u64::from(slot), &mut inner);
    inner.extend_from_slice(&delimited(tag, body));
    delimited(2, &inner)
}

fn data_msg(slot: u32, payload: &[u8]) -> Vec<u8> {
    let mut body = Vec::new();
    bytes(1, payload, &mut body);
    lite(slot, 3, &body)
}

fn wrapped_msg(slot: u32, seq: u64, payload: &[u8], client_id: u32, flow: Option<u32>) -> Vec<u8> {
    let mut body = Vec::new();
    number(1, seq, &mut body);
    bytes(2, payload, &mut body);
    number(3, u64::from(client_id), &mut body);
    if let Some(flow) = flow {
        prost::encoding::uint32::encode(4, &flow, &mut body);
    }
    lite(slot, 7, &body)
}

fn ordered_msg(slot: u32, flow: u32, seq: u64, payload: &[u8]) -> Vec<u8> {
    let mut body = Vec::new();
    number(1, u64::from(flow), &mut body);
    number(2, seq, &mut body);
    bytes(3, payload, &mut body);
    lite(slot, 8, &body)
}

/// A knock, as prost writes it.
fn sample() -> Vec<u8> {
    let mut punch = Vec::new();
    number(1, 12_345, &mut punch);
    let mut init = Vec::new();
    bytes(1, b"session-guid", &mut init);
    bytes(2, b"from", &mut init);
    bytes(3, b"to", &mut init);
    init.extend_from_slice(&delimited(5, &punch));
    delimited(1, &init)
}

fn big_data() -> Vec<u8> {
    let payload: Vec<u8> = (0..1392).map(|i| i as u8).collect();
    data_msg(3, &payload)
}

#[test]
fn round_trip() {
    let (mut send, mut recv) = keys(random_key());
    let message = sample();
    assert_eq!(decode(encode(&message, &mut send), &mut recv), Some(message));
}

#[test]
fn the_signature_leads_and_only_the_prefix_is_xored_with_the_cycled_key() {
    let key: XorKey = std::array::from_fn(|i| i as u8 + 1);
    let (mut send, _) = keys(key);
    let plain = big_data();

    let encoded = encode(&plain, &mut send);

    assert_eq!(encoded.len(), AUTH_LEN + plain.len());
    for (i, (enc, pln)) in encoded[AUTH_LEN..].iter().zip(&plain).enumerate() {
        let at = AUTH_LEN + i;
        let expected = if at < MASKED_PREFIX { key[at % KEY_LEN] } else { 0 };
        assert_eq!(enc ^ pln, expected, "byte {at}");
    }
}

#[test]
fn big_data_round_trip() {
    let (mut send, mut recv) = keys(random_key());
    let message = big_data();
    assert_eq!(decode(encode(&message, &mut send), &mut recv), Some(message));
}

#[test]
fn wrong_vector_or_signature_does_not_yield_the_message() {
    let (mut send, _) = keys(random_key());
    let (_, mut other_vector) = keys(random_key());
    assert_eq!(decode(encode(&sample(), &mut send), &mut other_vector), None, "a foreign vector");
    let (_, mut recv) = keys(send.xor);
    let mut foreign = SendKeys { xor: send.xor, sealer: Sealer::new(&[6u8; 32]) };
    assert_eq!(decode(encode(&sample(), &mut foreign), &mut recv), None, "a foreign signature");
}

#[test]
fn random_keys_differ() {
    assert_ne!(random_key(), random_key());
}

#[test]
fn mask_twice_restores_data() {
    let original: Vec<u8> = (0..300u32).map(|i| i as u8).collect();
    let mut data = original.clone();
    mask(&mut data, &[3; 16]);
    assert_ne!(data, original);
    assert_eq!(data[MASKED_PREFIX..], original[MASKED_PREFIX..]);
    mask(&mut data, &[3; 16]);
    assert_eq!(data, original);
}

#[test]
fn symmetric_in_arguments() {
    let a = Guid::random();
    let b = Guid::random();
    assert_eq!(PeerLinkId::new(a, b).as_bytes(), PeerLinkId::new(b, a).as_bytes());
    assert!(PeerLinkId::new(a, b).same(&PeerLinkId::new(b, a)));
}

#[test]
fn distinct_pairs_differ() {
    let a = Guid::random();
    let b = Guid::random();
    let c = Guid::random();
    assert_ne!(PeerLinkId::new(a, b).as_bytes(), PeerLinkId::new(a, c).as_bytes());
    assert!(!PeerLinkId::new(a, b).same(&PeerLinkId::new(a, c)));
}

#[test]
fn stable_bytes_layout() {
    let lo = Guid { value: 1 };
    let hi = Guid { value: 2 };
    let id = PeerLinkId::new(hi, lo);
    assert_eq!(&id.as_bytes()[..16], &lo.to_bytes());
    assert_eq!(&id.as_bytes()[16..], &hi.to_bytes());
}

#[test]
fn packet_holds_a_copy_and_compares_with_bytes() {
    let packet = Packet::copy_from(b"hello").unwrap();
    assert_eq!(packet.as_slice(), b"hello");
    assert_eq!(packet, b"hello");
    assert_eq!(packet, b"hello".to_vec());
    assert_eq!(packet, b"hello"[..]);
    assert_ne!(packet, b"hallo");
    assert_ne!(packet, b"hell".to_vec());
    assert!(packet.same(b"hello") && !packet.same(b"hello "));
    assert_eq!(packet, Packet::copy_from(b"hello").unwrap());
    assert_ne!(packet, Packet::copy_from(b"").unwrap());
    assert!(Packet::copy_from(&[0u8; PACKET_CAP + 1]).is_none());
    assert_eq!(Packet::copy_from(&[7u8; PACKET_CAP]).unwrap().len(), PACKET_CAP);
}

#[test]
fn buffers_are_reused_instead_of_allocated() {
    let mut bank = Bank::new();
    for _ in 0..10_000 {
        let packet = Packet::copy_from_bank(&mut bank, &[2u8; 1400]).unwrap();
        assert_eq!(packet.as_slice()[0], 2);
        packet.release(&mut bank);
    }
    assert_eq!(bank.stats(), (1, 1));
    let many: Vec<Packet> =
        (0..POOL_SIZE + 20).map(|_| Packet::copy_from_bank(&mut bank, b"x").unwrap()).collect();
    for packet in many {
        packet.release(&mut bank);
    }
    let (allocated, free) = stats(&bank);
    assert_eq!(allocated, (POOL_SIZE + 20) as u32);
    assert_eq!(free, POOL_SIZE);
}

fn reference(data: &[u8], key: &XorKey) -> Vec<u8> {
    data.iter().enumerate().map(|(i, b)| b ^ key[i % KEY_LEN]).collect()
}

fn sample_key() -> XorKey {
    std::array::from_fn(|i| (i as u8).wrapping_mul(37).wrapping_add(11))
}

fn check(kernel: impl Fn(&mut [u8], &[u8; 64])) {
    let key = sample_key();
    let pad = expand(&key);
    for len in 0..=300usize {
        let original: Vec<u8> = (0..len).map(|i| (i as u8).wrapping_mul(7).wrapping_add(3)).collect();
        let mut got = original.clone();
        kernel(&mut got, &pad);
        assert_eq!(got, reference(&original, &key), "length {len}");
    }
}

#[test]
fn dispatched_matches_reference() {
    let key = sample_key();
    for len in 0..=300usize {
        let original: Vec<u8> = (0..len).map(|i| (i as u8).wrapping_mul(7).wrapping_add(3)).collect();
        let mut got = original.clone();
        xor_in_place(&mut got, &key);
        assert_eq!(got, reference(&original, &key), "length {len}");
    }
}

#[test]
fn baseline_matches_reference() {
    check(xor_baseline);
}

#[test]
fn block_widths_match_reference_on_any_cpu() {
    check(xor_wide::<16>);
    check(xor_wide::<32>);
    check(xor_wide::<64>);
}

#[test]
fn xor_twice_restores_data() {
    let key = sample_key();
    let original: Vec<u8> = (0..1500u32).map(|i| i as u8).collect();
    let mut data = original.clone();
    xor_in_place(&mut data, &key);
    assert_ne!(data, original);
    xor_in_place(&mut data, &key);
    assert_eq!(data, original);
}

/// Two senders with one key and counters from zero: after the same number of calls they sign
/// alike.
fn twin_sealers() -> (SendKeys, SendKeys) {
    let xor = random_key();
    let keys = || SendKeys { xor, sealer: Sealer::new(&[4u8; 32]) };
    (keys(), keys())
}

fn lens() -> [usize; 8] {
    [0, 1, 50, 126, 127, 128, 1392, 1400]
}

#[test]
fn data_is_byte_for_byte_what_prost_produces() {
    let (mut prost_sealer, mut fast_sealer) = twin_sealers();
    let mut out = [0u8; 1500];
    for slot in [0u32, 1, 9, 127, 128, 300] {
        for len in lens() {
            let payload: Vec<u8> = (0..len).map(|i| (i * 7) as u8).collect();
            let expected = encode(&data_msg(slot, &payload), &mut prost_sealer);
            let n = encode_data(slot, &payload, &mut fast_sealer, &mut out).unwrap();
            assert_eq!(&out[..n], &expected[..], "slot {slot}, len {len}");
        }
    }
}

#[test]
fn wrapped_is_byte_for_byte_what_prost_produces() {
    let (mut prost_sealer, mut fast_sealer) = twin_sealers();
    let mut out = [0u8; 1500];
    for (seq, client_id) in [(0u64, 0u32), (1, 1), (127, 255), (u64::from(u32::MAX) + 5, 3), (u64::MAX, 200)] {
        for flow in [None, Some(0u32), Some(15), Some(300)] {
            for len in lens() {
                let payload: Vec<u8> = (0..len).map(|i| (i * 3) as u8).collect();
                let plain = wrapped_msg(4, seq, &payload, client_id, flow);
                let expected = encode(&plain, &mut prost_sealer);
                let n = encode_wrapped(4, seq, &payload, client_id, flow, &mut fast_sealer, &mut out).unwrap();
                assert_eq!(&out[..n], &expected[..], "seq {seq}, client {client_id}, flow {flow:?}, len {len}");
                assert_eq!(parse(&plain), Some(Fast::Wrapped { slot: 4, seq, payload: &payload, client_id, flow }));
            }
        }
    }
}

#[test]
fn ordered_is_byte_for_byte_what_prost_produces_and_parses_back() {
    let (mut prost_sealer, mut fast_sealer) = twin_sealers();
    let mut out = [0u8; 1500];
    for (flow, seq) in [(0u32, 0u64), (1, 1), (15, 127), (7, 128), (3, u64::from(u32::MAX) + 9)] {
        for len in lens() {
            let payload: Vec<u8> = (0..len).map(|i| (i * 5) as u8).collect();
            let plain = ordered_msg(6, flow, seq, &payload);
            let expected = encode(&plain, &mut prost_sealer);
            let n = encode_ordered(6, flow, seq, &payload, &mut fast_sealer, &mut out).unwrap();
            assert_eq!(&out[..n], &expected[..], "flow {flow}, seq {seq}, len {len}");
            assert_eq!(parse(&plain), Some(Fast::Ordered { slot: 6, flow, seq, payload: &payload }));
        }
    }
}

#[test]
fn parse_reads_what_prost_encodes() {
    for len in lens() {
        let payload: Vec<u8> = (0..len).map(|i| i as u8).collect();
        let bytes = data_msg(7, &payload);
        assert_eq!(parse(&bytes), Some(Fast::Data { slot: 7, payload: &payload }));
        let bytes = wrapped_msg(0, 42, &payload, 9, None);
        assert_eq!(
            parse(&bytes),
            Some(Fast::Wrapped { slot: 0, seq: 42, payload: &payload, client_id: 9, flow: None })
        );
    }
}

#[test]
fn everything_else_goes_to_prost() {
    let mut seq = Vec::new();
    number(1, 3, &mut seq);
    let keepalive = lite(1, 2, &seq);
    assert_eq!(parse(&keepalive), None);
    let mut trailing = data_msg(1, b"x");
    trailing.push(0);
    assert_eq!(parse(&trailing), None, "rubbish behind the message");
    let mut truncated = data_msg(1, &[5; 100]);
    truncated.truncate(50);
    assert_eq!(parse(&truncated), None, "a packet that is cut off");
    assert_eq!(parse(&[]), None);
    assert_eq!(parse(&[0xff; 64]), None);
}

#[test]
fn a_message_ends_where_its_bytes_end() {
    for message in [data_msg(7, b"payload"), wrapped_msg(1, 300, b"w", 9, Some(4)), ordered_msg(2, 3, 4, b"o")] {
        assert!(parse(&message).is_some());
        for n in 0..message.len() {
            assert_eq!(parse(&message[..n]), None, "{n} bytes of {}", message.len());
        }
        for more in [vec![0], vec![8, 1], message.clone(), vec![18, 0]] {
            let longer: Vec<u8> = message.iter().chain(&more).copied().collect();
            assert_eq!(parse(&longer), None, "{more:?} behind the message");
        }
    }
}

#[test]
fn too_small_output_is_refused() {
    let mut keys = SendKeys { xor: random_key(), sealer: Sealer::new(&[1u8; 32]) };
    assert_eq!(encode_data(1, &[0u8; 1400], &mut keys, &mut [0u8; 100]), None);
    assert_eq!(encode_data(1, &[0u8; 80], &mut keys, &mut [0u8; 100]), None, "no room for the signature");
}

#[test]
fn varints_are_what_prost_writes() {
    for v in [0u64, 1, 127, 128, 300, 16_383, 16_384, u64::from(u32::MAX), u64::MAX] {
        let mut buf = Vec::new();
        encode_varint(v, &mut buf);
        assert_eq!(varint_len(v), buf.len());
        assert_eq!(get_varint(&buf, 0), Some((v, buf.len())));
        assert_eq!(get_varint(&buf[..buf.len() - 1], 0), None, "{v} cut off");
    }
}
