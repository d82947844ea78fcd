//! Signing and checking packets of one direction.

use crate::auth::{derived, AuthKey, PairSecret, AUTH_LEN, SIGNED_PREFIX};
use crate::bytes::{
    le_bytes, le_value, lemma_le_len, lemma_le_round_trip, lemma_le_value, lemma_pow256_8,
    lemma_seventh_byte, put_le, read_le,
};
use crate::codec::lemma_version_bytes;
use crate::crypto::{aead_seal, aead_tag, aead_verify};
use crate::guid::Guid;
use crate::xor::XorKey;
use vstd::prelude::*;
use vstd::slice::slice_subrange;

verus! {

const TAG_LEN: usize = 16;

/// The nonce: the counter and the full length of the message.
pub open spec fn nonce_of(counter: u64, len: nat) -> Seq<u8> {
    le_bytes(counter as nat, 8) + le_bytes(len, 4)
}

/// The part of a message that is signed.
pub open spec fn signed_part(message: Seq<u8>) -> Seq<u8> {
    if message.len() <= SIGNED_PREFIX {
        message
    } else {
        message.take(SIGNED_PREFIX as int)
    }
}

/// The tag of a message with a counter.
pub open spec fn tag_of(key: Seq<u8>, counter: u64, message: Seq<u8>) -> Seq<u8> {
    aead_tag(key, nonce_of(counter, message.len()), signed_part(message))@
}

/// A packet: tag, counter, message.
pub open spec fn sealed(key: Seq<u8>, counter: u64, message: Seq<u8>) -> Seq<u8> {
    tag_of(key, counter, message) + le_bytes(counter as nat, 8) + message
}

/// The counter of a packet.
pub open spec fn counter_in(packet: Seq<u8>) -> u64 {
    le_value(packet.subrange(16, 24)) as u64
}

/// The packet carries the tag of its message.
pub open spec fn authentic(key: Seq<u8>, packet: Seq<u8>) -> bool {
    packet.len() >= AUTH_LEN && packet.take(16) == tag_of(key, counter_in(packet), packet.skip(24))
}

fn nonce(counter: u64, len: usize) -> (n: [u8; 12])
    ensures
        n@ == nonce_of(counter, len as nat),
{
    let mut bytes: Vec<u8> = Vec::new();
    put_le(&mut bytes, counter, 8);
    put_le(&mut bytes, len as u64, 4);
    proof {
        lemma_le_len(counter as nat, 8);
        lemma_le_len(len as nat, 4);
        assert(bytes@ =~= nonce_of(counter, len as nat));
    }
    let mut n: [u8; 12] = [0u8; 12];
    let mut i: usize = 0;
    while i < 12
        invariant
            i <= 12,
            bytes@.len() == 12,
            forall|k: int| 0 <= k < i ==> n@[k] == bytes@[k],
        decreases 12 - i,
    {
        n[i] = bytes[i];
        i += 1;
    }
    assert(n@ =~= bytes@);
    n
}

fn signed(message: &[u8]) -> (part: &[u8])
    ensures
        part@ == signed_part(message@),
{
    if message.len() <= SIGNED_PREFIX {
        message
    } else {
        assert(message@.subrange(0, 128) =~= message@.take(128));
        slice_subrange(message, 0, SIGNED_PREFIX)
    }
}

/// Signs outgoing packets of one direction; a counter of its own, so that no nonce repeats.
pub struct Sealer {
    key: AuthKey,
    next: u64,
}

impl Sealer {
    pub closed spec fn key(&self) -> Seq<u8> {
        self.key@
    }

    /// The counter of the next packet.
    pub closed spec fn next(&self) -> u64 {
        self.next
    }

    /// A new key: the counter starts with zero.
    pub fn new(key: &AuthKey) -> (sealer: Self)
        ensures
            sealer.key() == key@,
            sealer.next() == 0,
    {
        Self { key: *key, next: 0 }
    }

    /// A lasting key: the counter starts at a random place, below half of its range and never at
    /// zero. Four bits of the place are the version of a random GUID; the others are left to chance.
    pub fn with_random_start(key: &AuthKey) -> (sealer: Self)
        ensures
            sealer.key() == key@,
            0 < sealer.next() <= u64::MAX / 2,
            sealer.next() / 0x8_0000_0000_0000 % 16 == 4,
    {
        let guid = Guid::random();
        let bytes = guid.to_bytes();
        proof {
            lemma_version_bytes(guid);
            lemma_seventh_byte(bytes@.take(8));
        }
        Self::starting_at(key, bytes.as_slice())
    }

    /// A counter that starts with half of the number in the first eight of the bytes.
    pub fn starting_at(key: &AuthKey, random: &[u8]) -> (sealer: Self)
        requires
            random@.len() >= 8,
        ensures
            sealer.key() == key@,
            sealer.next() == le_value(random@.take(8)) / 2,
            sealer.next() <= u64::MAX / 2,
    {
        proof {
            assert(random@.subrange(0, 8) =~= random@.take(8));
        }
        let start: u64 = read_le(slice_subrange(random, 0, 8)) / 2;
        Self { key: *key, next: start }
    }

    /// There is a counter left for another packet.
    pub fn can_seal(&self) -> (can: bool)
        ensures
            can == (self.next() < u64::MAX),
    {
        self.next < u64::MAX
    }

    /// Signs the message `buf[AUTH_LEN..AUTH_LEN + len]`; the length of the packet, or `None` if
    /// the buffer has no room for it or the counters are used up.
    pub fn seal(&mut self, buf: &mut [u8], len: usize) -> (total: Option<usize>)
        ensures
            total is Some <==> len + AUTH_LEN <= old(buf)@.len() && old(self).next() < u64::MAX,
            total matches Some(n) ==> {
                &&& n == len + AUTH_LEN
                &&& final(buf)@ == sealed(
                    old(self).key(),
                    old(self).next(),
                    old(buf)@.subrange(24, 24 + len),
                ) + old(buf)@.skip(24 + len)
                &&& authentic(old(self).key(), final(buf)@.take(n as int))
                &&& counter_in(final(buf)@.take(n as int)) == old(self).next()
                &&& final(buf)@.subrange(24, n as int) == old(buf)@.subrange(24, n as int)
                &&& final(self).next() == old(self).next() + 1
            },
            final(buf)@.len() == old(buf)@.len(),
            total is None ==> final(buf)@ == old(buf)@ && final(self).next() == old(self).next(),
            final(self).key() == old(self).key(),
    {
        let size: usize = buf.len();
        let total: usize = match len.checked_add(AUTH_LEN) {
            Some(total) => total,
            None => {
                return None;
            },
        };
        if size < total || self.next == u64::MAX {
            return None;
        }
        let counter: u64 = self.next;
        self.next = counter + 1;
        let ghost start = buf@;
        let ghost message = buf@.subrange(24, 24 + len);
        let tag: [u8; 16] = aead_seal(
            &self.key,
            &nonce(counter, len),
            signed(slice_subrange(&*buf, AUTH_LEN, total)),
        );
        let mut header: Vec<u8> = Vec::new();
        put_le(&mut header, counter, 8);
        proof {
            lemma_le_len(counter as nat, 8);
        }
        let mut i: usize = 0;
        while i < TAG_LEN
            invariant
                i <= 16,
                total <= buf@.len() == start.len(),
                total == len + AUTH_LEN,
                forall|k: int| 0 <= k < start.len() ==> #[trigger] buf@[k] == if k < i {
                    tag@[k]
                } else {
                    start[k]
                },
            decreases 16 - i,
        {
            buf[i] = tag[i];
            i += 1;
        }
        let mut j: usize = 0;
        while j < 8
            invariant
                j <= 8,
                header@.len() == 8,
                total <= buf@.len() == start.len(),
                total == len + AUTH_LEN,
                forall|k: int| 0 <= k < start.len() ==> #[trigger] buf@[k] == if k < 16 {
                    tag@[k]
                } else if k < 16 + j {
                    header@[k - 16]
                } else {
                    start[k]
                },
            decreases 8 - j,
        {
            buf[TAG_LEN + j] = header[j];
            j += 1;
        }
        proof {
            assert(header@ =~= le_bytes(counter as nat, 8));
            assert(message.len() == len);
            let packet = sealed(old(self).key(), counter, message);
            assert(buf@ =~= packet + start.skip(24 + len));
            assert(buf@.take(total as int) =~= packet);
            law_sealed_packet_is_authentic(old(self).key(), counter, message);
            assert(buf@.subrange(24, total as int) =~= packet.skip(24));
        }
        Some(total)
    }

    /// Signs a message; the signature stands before it.
    pub fn seal_vec(&mut self, message: &Vec<u8>) -> (packet: Vec<u8>)
        requires
            old(self).next() < u64::MAX,
            message@.len() + AUTH_LEN <= usize::MAX,
        ensures
            packet@ == sealed(old(self).key(), old(self).next(), message@),
            packet@.len() == AUTH_LEN + message@.len(),
            authentic(old(self).key(), packet@),
            counter_in(packet@) == old(self).next(),
            packet@.skip(24) == message@,
            final(self).key() == old(self).key(),
            final(self).next() == old(self).next() + 1,
    {
        let mut packet: Vec<u8> = Vec::new();
        let mut i: usize = 0;
        while i < AUTH_LEN
            invariant
                i <= AUTH_LEN,
                packet@.len() == i,
            decreases AUTH_LEN - i,
        {
            packet.push(0);
            i += 1;
        }
        crate::bytes::put_bytes(&mut packet, message.as_slice());
        assert(packet@.subrange(24, 24 + message@.len() as int) =~= message@);
        assert(packet@.skip(24 + message@.len() as int) =~= Seq::<u8>::empty());
        let len: usize = message.len();
        self.seal(packet.as_mut_slice(), len);
        assert(packet@ =~= sealed(old(self).key(), old(self).next(), message@));
        assert(packet@.take(packet@.len() as int) =~= packet@);
        assert(packet@.skip(24) =~= packet@.subrange(24, packet@.len() as int));
        packet
    }
}

/// A sliding window of the last 64 counters.
#[derive(Clone, Copy)]
pub struct ReplayWindow {
    /// The greatest accepted counter and one (0: nothing was accepted yet).
    top: u64,
    /// Bit `i`: counter `top - 1 - i` was accepted.
    seen: u64,
}

/// Bit `i` of `bits`.
pub open spec fn bit(bits: u64, i: u64) -> bool {
    (bits >> i) & 1 == 1
}

impl ReplayWindow {
    /// All accepted counters are below this one.
    pub closed spec fn top(self) -> u64 {
        self.top
    }

    /// Counter `c` is in the window and was accepted.
    pub closed spec fn recent(self, c: u64) -> bool {
        c < self.top && self.top - 1 - c < 64 && bit(self.seen, (self.top - 1 - c) as u64)
    }

    /// Counter `c` was not accepted yet and is not too old.
    pub open spec fn is_fresh(self, c: u64) -> bool {
        c >= self.top() || self.top() - 1 - c < 64 && !self.recent(c)
    }

    /// The window after counter `c` was accepted.
    pub open spec fn accepted(self, c: u64, after: Self) -> bool {
        &&& after.top() == if c >= self.top() {
            (c + 1) as u64
        } else {
            self.top()
        }
        &&& forall|d: u64| #[trigger]
            after.recent(d) <==> (d == c || self.recent(d)) && after.top() - 1 - d < 64
    }

    pub fn new() -> (window: Self)
        ensures
            window.top() == 0,
            forall|c: u64| !(#[trigger] window.recent(c)),
    {
        Self { top: 0, seen: 0 }
    }

    /// Counter `counter` was not accepted yet and is not too old.
    pub fn fresh(&self, counter: u64) -> (fresh: bool)
        ensures
            fresh == self.is_fresh(counter),
    {
        if counter >= self.top {
            return true;
        }
        let back: u64 = self.top - 1 - counter;
        if back >= 64 {
            return false;
        }
        let seen: u64 = self.seen;
        assert((seen & (1u64 << back) == 0) == ((seen >> back) & 1 != 1)) by (bit_vector)
            requires
                back < 64,
        ;
        seen & (1u64 << back) == 0
    }

    /// Accepts a fresh counter.
    pub fn accept(&mut self, counter: u64)
        requires
            old(self).is_fresh(counter),
            counter < u64::MAX,
        ensures
            old(self).accepted(counter, *final(self)),
    {
        let ghost before = *self;
        let seen: u64 = self.seen;
        if counter >= self.top {
            let shift: u64 = counter + 1 - self.top;
            let shifted: u64 = if shift >= 64 {
                0
            } else {
                seen << shift
            };
            self.seen = shifted | 1;
            self.top = counter + 1;
            assert forall|d: u64| #[trigger] self.recent(d) <==> (d == counter || before.recent(d)) && self.top - 1
                - d < 64 by {
                if d < self.top && self.top - 1 - d < 64 {
                    let i: u64 = (self.top - 1 - d) as u64;
                    if shift >= 64 {
                        assert((((0u64 | 1) >> i) & 1 == 1) == (i == 0)) by (bit_vector)
                            requires
                                i < 64,
                        ;
                    } else if i >= shift {
                        let j: u64 = (i - shift) as u64;
                        assert(((((seen << shift) | 1) >> i) & 1 == 1) == ((seen >> j) & 1 == 1)) by (bit_vector)
                            requires
                                i < 64,
                                0 < shift <= i,
                                j == i - shift,
                        ;
                    } else {
                        assert(((((seen << shift) | 1) >> i) & 1 == 1) == (i == 0)) by (bit_vector)
                            requires
                                i < shift < 64,
                        ;
                    }
                }
            }
        } else {
            let back: u64 = self.top - 1 - counter;
            self.seen = seen | (1u64 << back);
            assert forall|d: u64| #[trigger] self.recent(d) <==> (d == counter || before.recent(d)) && self.top - 1
                - d < 64 by {
                if d < self.top && self.top - 1 - d < 64 {
                    let i: u64 = (self.top - 1 - d) as u64;
                    assert((((seen | (1u64 << back)) >> i) & 1 == 1) == (i == back || (seen >> i) & 1 == 1))
                        by (bit_vector)
                        requires
                            i < 64,
                            back < 64,
                    ;
                }
            }
        }
    }
}

/// Checks incoming packets of one direction.
pub struct Opener {
    key: AuthKey,
    window: Option<ReplayWindow>,
}

impl Opener {
    pub closed spec fn key(&self) -> Seq<u8> {
        self.key@
    }

    /// The window against repeated packets, if there is one.
    pub closed spec fn window(&self) -> Option<ReplayWindow> {
        self.window
    }

    /// The window lets counter `c` pass. The last counter is used by no sealer.
    pub open spec fn passes(&self, c: u64) -> bool {
        self.window() matches Some(w) ==> w.is_fresh(c) && c < u64::MAX
    }

    /// With a window against repeated packets (a hole).
    pub fn new(key: &AuthKey) -> (opener: Self)
        ensures
            opener.key() == key@,
            opener.window() matches Some(w) && w.top() == 0 && forall|c: u64| !(#[trigger] w.recent(c)),
    {
        Self { key: *key, window: Some(ReplayWindow::new()) }
    }

    /// Without a window (the acquaintance port: there the counters start at random places).
    pub fn without_replay_window(key: &AuthKey) -> (opener: Self)
        ensures
            opener.key() == key@,
            opener.window() is None,
    {
        Self { key: *key, window: None }
    }

    /// Checks a packet: tag, counter, message. The length of the message if the signature is
    /// right and the packet is no repetition.
    pub fn open(&mut self, buf: &[u8]) -> (len: Option<usize>)
        ensures
            len is Some <==> authentic(old(self).key(), buf@) && old(self).passes(counter_in(buf@)),
            len matches Some(n) ==> n == buf@.len() - AUTH_LEN,
            final(self).key() == old(self).key(),
            final(self).window() is Some <==> old(self).window() is Some,
            len is None ==> final(self).window() == old(self).window(),
            len is Some ==> (old(self).window() matches Some(w) ==> w.accepted(
                counter_in(buf@),
                final(self).window()->0,
            )),
    {
        if buf.len() < AUTH_LEN {
            return None;
        }
        let counter: u64 = read_le(slice_subrange(buf, 16, 24));
        let message = slice_subrange(buf, AUTH_LEN, buf.len());
        let ghost right = authentic(self.key(), buf@);
        proof {
            lemma_le_value(buf@.subrange(16, 24));
            lemma_pow256_8();
            assert(buf@.skip(24) =~= buf@.subrange(24, buf@.len() as int));
        }
        if let Some(window) = &self.window {
            if counter == u64::MAX || !window.fresh(counter) {
                return None;
            }
        }
        let mut tag: [u8; 16] = [0u8; 16];
        let mut i: usize = 0;
        while i < TAG_LEN
            invariant
                i <= 16,
                buf@.len() >= AUTH_LEN,
                forall|k: int| 0 <= k < i ==> tag@[k] == buf@[k],
            decreases 16 - i,
        {
            tag[i] = buf[i];
            i += 1;
        }
        assert(tag@ =~= buf@.take(16));
        if !aead_verify(&self.key, &nonce(counter, message.len()), signed(message), &tag) {
            return None;
        }
        if let Some(window) = &mut self.window {
            window.accept(counter);
        }
        Some(message.len())
    }
}

/// Everything to send in one direction: the receiver's vector and the signature.
pub struct SendKeys {
    pub xor: XorKey,
    pub sealer: Sealer,
}

/// Everything to receive from one side: our vector and the check of the signature.
pub struct RecvKeys {
    pub xor: XorKey,
    pub opener: Opener,
}

impl PairSecret {
    /// The keys of the hole between session `me` and the peer's session `peer`, before anything
    /// was sent.
    pub open spec fn link_keys_are(self, me: Guid, peer: Guid, send: SendKeys, receive: RecvKeys) -> bool {
        &&& send.xor@ == derived(self@, "xor"@, peer.bytes()).take(16)
        &&& send.sealer.key() == derived(self@, "link"@, me.bytes() + peer.bytes())
        &&& send.sealer.next() == 0
        &&& receive.xor@ == derived(self@, "xor"@, me.bytes()).take(16)
        &&& receive.opener.key() == derived(self@, "link"@, peer.bytes() + me.bytes())
        &&& receive.opener.window() is Some
        &&& receive.opener.window()->0.top() == 0
        &&& forall|c: u64| !(#[trigger] receive.opener.window()->0.recent(c))
    }

    /// Keys of the hole between session `me` and the peer's session `peer`: to send, to receive.
    pub fn link_keys(&self, me: Guid, peer: Guid) -> (keys: (SendKeys, RecvKeys))
        ensures
            self.link_keys_are(me, peer, keys.0, keys.1),
    {
        let send = SendKeys { xor: self.xor_key(peer), sealer: Sealer::new(&self.link_key(me, peer)) };
        let receive = RecvKeys { xor: self.xor_key(me), opener: Opener::new(&self.link_key(peer, me)) };
        (send, receive)
    }

    /// Keys of the acquaintance port: one for the pair, the counter from a random place, without
    /// a window.
    pub fn bootstrap_keys(&self) -> (keys: (SendKeys, RecvKeys))
        ensures
            keys.0.xor@ == derived(self@, "bootstrap-xor"@, Seq::empty()).take(16),
            keys.0.sealer.key() == derived(self@, "bootstrap-auth"@, Seq::empty()),
            0 < keys.0.sealer.next() <= u64::MAX / 2,
            keys.0.sealer.next() / 0x8_0000_0000_0000 % 16 == 4,
            keys.1.xor@ == keys.0.xor@,
            keys.1.opener.key() == keys.0.sealer.key(),
            keys.1.opener.window() is None,
    {
        let (xor, auth) = self.bootstrap();
        let send = SendKeys { xor, sealer: Sealer::with_random_start(&auth) };
        let receive = RecvKeys { xor, opener: Opener::without_replay_window(&auth) };
        (send, receive)
    }
}

/// A packet that was sealed is authentic under the same key, with the counter and the message
/// it was sealed with.
pub proof fn law_sealed_packet_is_authentic(key: Seq<u8>, counter: u64, message: Seq<u8>)
    ensures
        authentic(key, sealed(key, counter, message)),
        counter_in(sealed(key, counter, message)) == counter,
        sealed(key, counter, message).skip(24) == message,
{
    let packet = sealed(key, counter, message);
    lemma_le_len(counter as nat, 8);
    lemma_pow256_8();
    lemma_le_round_trip(counter as nat, 8);
    assert(packet.subrange(16, 24) =~= le_bytes(counter as nat, 8));
    assert(packet.take(16) =~= tag_of(key, counter, message));
    assert(packet.skip(24) =~= message);
}

/// The tag depends on the signed part, the length and the counter alone: a change behind the
/// signed part goes unnoticed.
pub proof fn law_tail_is_not_signed(key: Seq<u8>, counter: u64, message: Seq<u8>, other: Seq<u8>)
    requires
        message.len() == other.len(),
        signed_part(message) == signed_part(other),
    ensures
        tag_of(key, counter, message) == tag_of(key, counter, other),
{
}

/// A counter that was accepted is not fresh any more.
pub proof fn law_accepted_counter_is_not_fresh(w: ReplayWindow, c: u64, after: ReplayWindow)
    requires
        c < u64::MAX,
        w.is_fresh(c),
        w.accepted(c, after),
    ensures
        !after.is_fresh(c),
{
    assert(after.recent(c) || after.top() - 1 - c >= 64);
}

/// A counter that is not fresh never becomes fresh again, whatever is accepted.
pub proof fn law_stale_counter_stays_stale(w: ReplayWindow, c: u64, d: u64, after: ReplayWindow)
    requires
        d < u64::MAX,
        w.is_fresh(d),
        w.accepted(d, after),
        !w.is_fresh(c),
    ensures
        !after.is_fresh(c),
{
    assert(after.recent(c) || after.top() - 1 - c >= 64);
}

/// Reordering within the window is fine: accepting a counter leaves every other fresh one fresh,
/// as long as it is less than 64 behind the greatest.
pub proof fn law_reordering_in_the_window_is_fine(w: ReplayWindow, c: u64, d: u64, after: ReplayWindow)
    requires
        d < u64::MAX,
        w.is_fresh(d),
        w.accepted(d, after),
        w.is_fresh(c),
        c != d,
        after.top() - 1 - c < 64,
    ensures
        after.is_fresh(c),
{
    if c < after.top() {
        if after.recent(c) {
            assert(w.recent(c));
            assert(false);
        }
    }
}

/// A window that accepts fresh counters one after the other; `windows[i]` is the one before the
/// counter `counters[i]`.
pub open spec fn accepts_all(windows: Seq<ReplayWindow>, counters: Seq<u64>) -> bool {
    &&& windows.len() == counters.len() + 1
    &&& forall|i: int| 0 <= i < counters.len() ==> {
        &&& counters[i] < u64::MAX
        &&& (#[trigger] windows[i]).is_fresh(counters[i])
        &&& windows[i].accepted(counters[i], windows[i + 1])
    }
}

proof fn lemma_stale_after(windows: Seq<ReplayWindow>, counters: Seq<u64>, i: int, j: int)
    requires
        accepts_all(windows, counters),
        0 <= i < j < windows.len(),
    ensures
        !windows[j].is_fresh(counters[i]),
    decreases j - i,
{
    let w = windows[j - 1];
    assert(w.is_fresh(counters[j - 1]) && w.accepted(counters[j - 1], windows[j]));
    if j == i + 1 {
        law_accepted_counter_is_not_fresh(w, counters[i], windows[j]);
    } else {
        lemma_stale_after(windows, counters, i, j - 1);
        law_stale_counter_stays_stale(w, counters[i], counters[j - 1], windows[j]);
    }
}

/// No counter is ever accepted twice, however many were accepted in between.
pub proof fn law_no_counter_is_accepted_twice(windows: Seq<ReplayWindow>, counters: Seq<u64>)
    requires
        accepts_all(windows, counters),
    ensures
        counters.no_duplicates(),
{
    assert forall|i: int, j: int| 0 <= i < j < counters.len() implies counters[i] != counters[j] by {
        lemma_stale_after(windows, counters, i, j);
        assert(windows[j].is_fresh(counters[j]));
    }
}

/// A sealed packet, byte by byte: 16 bytes of a tag, eight of the counter, lowest first, and the
/// message as it was. The tag is made with the key from the counter and the length in front, and
/// from the first 128 bytes of the message. Sealing fails where the 24 bytes do not fit, and once
/// the counters are used up; nothing changes then.
pub proof fn law_a_sealed_packet_byte_by_byte(len: usize)
    ensures
        forall|sealer: &mut Sealer, buf: &mut [u8], total: Option<usize>| #[trigger]
            call_ensures(Sealer::seal, (sealer, buf, len), total) ==> {
                let (before, after) = ((*buf)@, final(buf)@);
                let message = before.subrange(24, 24 + len);
                &&& total is Some <==> len + 24 <= before.len() && sealer.next()
                    < 0xffff_ffff_ffff_ffff
                &&& total is None ==> after == before && final(sealer).next() == sealer.next()
                &&& total matches Some(n) ==> {
                    &&& n == len + 24
                    &&& after.subrange(16, 24) == le_bytes(sealer.next() as nat, 8)
                    &&& after.skip(24) == before.skip(24)
                    &&& len <= 128 ==> after.take(16) == aead_tag(
                        sealer.key(),
                        le_bytes(sealer.next() as nat, 8) + le_bytes(len as nat, 4),
                        message,
                    )@
                    &&& len >= 128 ==> after.take(16) == aead_tag(
                        sealer.key(),
                        le_bytes(sealer.next() as nat, 8) + le_bytes(len as nat, 4),
                        message.take(128),
                    )@
                    &&& final(sealer).next() == sealer.next() + 1
                }
                &&& final(sealer).key() == sealer.key()
            },
{
    assert forall|sealer: &mut Sealer, buf: &mut [u8], total: Option<usize>| #[trigger]
        call_ensures(Sealer::seal, (sealer, buf, len), total) implies {
        let (before, after) = ((*buf)@, final(buf)@);
        let message = before.subrange(24, 24 + len);
        &&& total is Some <==> len + 24 <= before.len() && sealer.next() < 0xffff_ffff_ffff_ffff
        &&& total is None ==> after == before && final(sealer).next() == sealer.next()
        &&& total matches Some(n) ==> {
            &&& n == len + 24
            &&& after.subrange(16, 24) == le_bytes(sealer.next() as nat, 8)
            &&& after.skip(24) == before.skip(24)
            &&& len <= 128 ==> after.take(16) == aead_tag(
                sealer.key(),
                le_bytes(sealer.next() as nat, 8) + le_bytes(len as nat, 4),
                message,
            )@
            &&& len >= 128 ==> after.take(16) == aead_tag(
                sealer.key(),
                le_bytes(sealer.next() as nat, 8) + le_bytes(len as nat, 4),
                message.take(128),
            )@
            &&& final(sealer).next() == sealer.next() + 1
        }
        &&& final(sealer).key() == sealer.key()
    } by {
        let (before, after) = ((*buf)@, final(buf)@);
        if total is Some {
            let message = before.subrange(24, 24 + len);
            lemma_le_len(sealer.next() as nat, 8);
            assert(after.subrange(16, 24) =~= le_bytes(sealer.next() as nat, 8));
            assert(after.skip(24) =~= before.skip(24));
            assert(after.take(16) =~= tag_of(sealer.key(), sealer.next(), message));
            if len == 128 {
                assert(message.take(128) =~= message);
            }
        }
    }
}

/// A sealer starts to count at zero; one that starts anywhere else starts at half of the number in
/// the first eight bytes that it is given.
pub proof fn law_sealers_start_to_count(
    key: &AuthKey,
    fresh: Sealer,
    random: &[u8],
    other: Sealer,
    can: bool,
)
    requires
        random@.len() >= 8,
        call_ensures(Sealer::new, (key,), fresh),
        call_ensures(Sealer::starting_at, (key, random), other),
        call_ensures(Sealer::can_seal, (&other,), can),
    ensures
        fresh.key() == key@ && other.key() == key@,
        fresh.next() == 0,
        2 * other.next() <= le_value(random@.take(8)) <= 2 * other.next() + 1,
        can,
{
    lemma_le_value(random@.take(8));
    lemma_pow256_8();
}

/// A packet is opened if it has 24 bytes or more, its tag is the one that sealing gives, and its
/// counter has not been there; what is left is the message behind the 24 bytes. A packet that is
/// not opened changes nothing.
pub proof fn law_a_packet_is_opened_by_its_tag(buf: &[u8])
    ensures
        forall|opener: &mut Opener, len: Option<usize>| #[trigger]
            call_ensures(Opener::open, (opener, buf), len) ==> {
                let message = buf@.skip(24);
                let counter = le_value(buf@.subrange(16, 24));
                let signed = if message.len() <= 128 {
                    message
                } else {
                    message.take(128)
                };
                let tag = aead_tag(
                    opener.key(),
                    le_bytes(counter, 8) + le_bytes(message.len(), 4),
                    signed,
                )@;
                &&& buf@.len() < 24 ==> len is None
                &&& buf@.len() >= 24 && buf@.take(16) != tag ==> len is None
                &&& buf@.len() >= 24 && buf@.take(16) == tag && opener.window() is None ==> len is Some
                &&& buf@.len() >= 24 && buf@.take(16) == tag && counter < 0xffff_ffff_ffff_ffff ==> (
                opener.window() matches Some(w) ==> (len is Some <==> w.is_fresh(counter as u64)))
                &&& len matches Some(n) ==> n == buf@.len() - 24
                &&& len is None ==> final(opener).window() == opener.window()
                &&& final(opener).key() == opener.key()
            },
{
    if buf@.len() >= 24 {
        lemma_le_value(buf@.subrange(16, 24));
        lemma_pow256_8();
    }
}

/// A packet that was opened is not opened a second time.
pub proof fn law_a_packet_is_opened_once(buf: &[u8])
    ensures
        forall|
            first: &mut Opener,
            once: Option<usize>,
            second: &mut Opener,
            twice: Option<usize>,
        |
            #![trigger call_ensures(Opener::open, (first, buf), once), call_ensures(Opener::open, (second, buf), twice)]
            call_ensures(Opener::open, (first, buf), once) && call_ensures(
                Opener::open,
                (second, buf),
                twice,
            ) && once is Some && *second == *final(first) && first.window() is Some ==> twice is None,
{
    assert forall|
        first: &mut Opener,
        once: Option<usize>,
        second: &mut Opener,
        twice: Option<usize>,
    |
        #![trigger call_ensures(Opener::open, (first, buf), once), call_ensures(Opener::open, (second, buf), twice)]
        call_ensures(Opener::open, (first, buf), once) && call_ensures(
            Opener::open,
            (second, buf),
            twice,
        ) && once is Some && *second == *final(first) && first.window() is Some implies twice is None by {
        let c = counter_in(buf@);
        law_accepted_counter_is_not_fresh(first.window()->0, c, final(first).window()->0);
    }
}

/// Once a counter is accepted it is fresh no longer, and neither is any that lies 64 or more behind
/// it; every other is as fresh as before. In a new window all are fresh.
pub proof fn law_a_window_covers_64_counters(c: u64, d: u64, new: ReplayWindow, fresh: bool)
    requires
        call_ensures(ReplayWindow::new, (), new),
        call_ensures(ReplayWindow::fresh, (&new, d), fresh),
    ensures
        fresh,
        forall|w: &mut ReplayWindow, before: bool, after: bool|
            #![trigger call_ensures(ReplayWindow::fresh, (&*w, d), before), call_ensures(ReplayWindow::fresh, (&*final(w), d), after)]
            call_ensures(ReplayWindow::accept, (w, c), ()) && (*w).is_fresh(c) && c < u64::MAX
                && call_ensures(ReplayWindow::fresh, (&*w, d), before) && call_ensures(
                ReplayWindow::fresh,
                (&*final(w), d),
                after,
            ) ==> (after <==> before && d != c && (d > c || c - d < 64)),
{
    assert forall|w: &mut ReplayWindow, before: bool, after: bool|
        #![trigger call_ensures(ReplayWindow::fresh, (&*w, d), before), call_ensures(ReplayWindow::fresh, (&*final(w), d), after)]
        call_ensures(ReplayWindow::accept, (w, c), ()) && (*w).is_fresh(c) && c < u64::MAX
            && call_ensures(ReplayWindow::fresh, (&*w, d), before) && call_ensures(
            ReplayWindow::fresh,
            (&*final(w), d),
            after,
        ) implies (after <==> before && d != c && (d > c || c - d < 64)) by {
        let (was, is_now) = (*w, *final(w));
        assert(was.accepted(c, is_now));
        assert(is_now.recent(d) <==> (d == c || was.recent(d)) && is_now.top() - 1 - d < 64);
    }
}

/// The ends of a hole sign with different keys: what one sends with, the other receives with.
/// The masks are those of the sessions that packets go to.
pub proof fn law_ends_use_each_others_keys(
    one: &PairSecret,
    other: &PairSecret,
    me: Guid,
    peer: Guid,
    mine: (SendKeys, RecvKeys),
    theirs: (SendKeys, RecvKeys),
)
    requires
        one@ == other@,
        call_ensures(PairSecret::link_keys, (one, me, peer), mine),
        call_ensures(PairSecret::link_keys, (other, peer, me), theirs),
    ensures
        mine.0.sealer.key() == theirs.1.opener.key(),
        theirs.0.sealer.key() == mine.1.opener.key(),
        mine.0.xor@ == theirs.1.xor@,
        theirs.0.xor@ == mine.1.xor@,
        mine.0.sealer.next() == 0,
        mine.0.sealer.key() == derived(one@, "link"@, me.bytes() + peer.bytes()),
        mine.0.xor@ == derived(one@, "xor"@, peer.bytes()).take(16),
{
}

/// At the port where peers get acquainted both ends use the same keys, and repeated packets are
/// not told from others.
pub proof fn law_acquaintances_share_their_keys(
    one: &PairSecret,
    other: &PairSecret,
    mine: (SendKeys, RecvKeys),
    theirs: (SendKeys, RecvKeys),
)
    requires
        one@ == other@,
        call_ensures(PairSecret::bootstrap_keys, (one,), mine),
        call_ensures(PairSecret::bootstrap_keys, (other,), theirs),
    ensures
        mine.0.sealer.key() == theirs.1.opener.key(),
        mine.0.xor@ == theirs.1.xor@,
        mine.1.opener.window() is None,
        mine.0.sealer.key() == derived(one@, "bootstrap-auth"@, Seq::empty()),
        mine.0.xor@ == derived(one@, "bootstrap-xor"@, Seq::empty()).take(16),
{
}

} // verus!
