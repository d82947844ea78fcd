//! Measuring what comes through the holes: numbered packets, how many are lost, how many come out
//! of order and how late those are.

use crate::bytes::{
    le_bytes, le_value, lemma_le_len, lemma_le_round_trip, lemma_le_value, lemma_pow256_8, put_le,
    read_le,
};
use std::collections::HashMap;
use vstd::prelude::*;
use vstd::slice::slice_subrange;

verus! {

broadcast use vstd::std_specs::hash::group_hash_axioms;

/// The mark of a packet of a measurement.
pub open spec fn mark() -> Seq<u8> {
    seq![77u8, 76u8, 66u8, 78u8]
}

/// The number in a packet of a measurement: the mark, four bytes, and eight bytes of the number,
/// least significant first.
pub open spec fn number_of(payload: Seq<u8>) -> Option<u64> {
    if payload.len() >= 16 && payload.take(4) == mark() {
        Some(le_value(payload.subrange(8, 16)) as u64)
    } else {
        None
    }
}

/// Reads the number of a packet of a measurement.
pub fn packet_number(payload: &[u8]) -> (number: Option<u64>)
    ensures
        number == number_of(payload@),
{
    if payload.len() < 16 {
        return None;
    }
    if payload[0] != 77 || payload[1] != 76 || payload[2] != 66 || payload[3] != 78 {
        proof {
            if payload@.take(4) == mark() {
                assert(payload@[0] == payload@.take(4)[0]);
                assert(payload@[1] == payload@.take(4)[1]);
                assert(payload@[2] == payload@.take(4)[2]);
                assert(payload@[3] == payload@.take(4)[3]);
            }
        }
        return None;
    }
    assert(payload@.take(4) =~= mark());
    Some(read_le(slice_subrange(payload, 8, 16)))
}

/// A packet of a measurement of a length.
pub open spec fn packet_of(number: u64, len: int) -> Seq<u8> {
    mark() + seq![0u8, 0u8, 0u8, 0u8] + le_bytes(number as nat, 8) + Seq::new(
        (len - 16) as nat,
        |i: int| 0u8,
    )
}

/// Writes a packet of a measurement; it is at least 16 bytes long.
pub fn packet(number: u64, len: usize) -> (payload: Vec<u8>)
    ensures
        payload@ == packet_of(
            number,
            if len < 16 {
                16
            } else {
                len as int
            },
        ),
{
    let mut payload: Vec<u8> = Vec::new();
    payload.push(77);
    payload.push(76);
    payload.push(66);
    payload.push(78);
    payload.push(0);
    payload.push(0);
    payload.push(0);
    payload.push(0);
    assert(payload@ =~= mark() + seq![0u8, 0u8, 0u8, 0u8]);
    put_le(&mut payload, number, 8);
    let ghost head = payload@;
    let size: usize = if len < 16 {
        16
    } else {
        len
    };
    proof {
        lemma_le_len(number as nat, 8);
        assert(payload@ =~= head + Seq::new(0, |i: int| 0u8));
    }
    while payload.len() < size
        invariant
            16 == head.len() <= payload@.len() <= size,
            payload@ == head + Seq::new((payload@.len() - 16) as nat, |i: int| 0u8),
        decreases size - payload@.len(),
    {
        payload.push(0);
        assert(payload@ =~= head + Seq::new((payload@.len() - 16) as nat, |i: int| 0u8));
    }
    payload
}

/// A burst of packets; times are in nanoseconds.
pub struct Burst {
    pub first: u64,
    pub max: u64,
    pub count: u64,
    pub bytes: u64,
    /// How many came out of order.
    pub ooo: u64,
    pub t0: u64,
    pub t1: u64,
    /// The numbers that are missing, and when they were found to be.
    pub missing: HashMap<u64, u64>,
    /// How late the packets were that came after they had been found missing.
    pub lateness: Vec<u64>,
}

/// What is known of a burst.
pub struct BurstModel {
    pub first: u64,
    pub max: u64,
    pub count: u64,
    pub bytes: u64,
    pub ooo: u64,
    pub t0: u64,
    pub t1: u64,
    pub missing: Map<u64, u64>,
    pub lateness: Seq<u64>,
}

impl View for Burst {
    type V = BurstModel;

    open spec fn view(&self) -> BurstModel {
        BurstModel {
            first: self.first,
            max: self.max,
            count: self.count,
            bytes: self.bytes,
            ooo: self.ooo,
            t0: self.t0,
            t1: self.t1,
            missing: self.missing@,
            lateness: self.lateness@,
        }
    }
}

/// The numbers between the highest one and a new one are missing since now.
pub open spec fn with_gap(missing: Map<u64, u64>, max: u64, seq: u64, now: u64) -> Map<u64, u64> {
    missing.union_prefer_right(Map::new(|k: u64| max < k < seq, |k: u64| now))
}

/// How long ago something was noticed.
pub open spec fn since(noticed: u64, now: u64) -> u64 {
    if now >= noticed {
        (now - noticed) as u64
    } else {
        0
    }
}

/// A burst after one more packet.
pub open spec fn with_packet(b: BurstModel, seq: u64, len: usize, now: u64) -> BurstModel {
    let again = seq < b.max || (b.count > 0 && seq == b.max);
    let missing = if b.count > 0 && seq > b.max {
        with_gap(b.missing, b.max, seq, now)
    } else {
        b.missing
    };
    BurstModel {
        first: if seq < b.first {
            seq
        } else {
            b.first
        },
        max: if again {
            b.max
        } else {
            seq
        },
        count: (b.count + 1) as u64,
        bytes: (b.bytes + len) as u64,
        ooo: if again {
            (b.ooo + 1) as u64
        } else {
            b.ooo
        },
        t0: b.t0,
        t1: now,
        missing: if again {
            missing.remove(seq)
        } else {
            missing
        },
        lateness: if again && missing.contains_key(seq) {
            b.lateness.push(since(missing[seq], now))
        } else {
            b.lateness
        },
    }
}

impl Burst {
    /// A burst that starts with a number.
    pub fn new(seq: u64, now: u64) -> (burst: Self)
        ensures
            burst@ == (BurstModel {
                first: seq,
                max: seq,
                count: 0,
                bytes: 0,
                ooo: 0,
                t0: now,
                t1: now,
                missing: Map::empty(),
                lateness: Seq::empty(),
            }),
    {
        let burst = Burst {
            first: seq,
            max: seq,
            count: 0,
            bytes: 0,
            ooo: 0,
            t0: now,
            t1: now,
            missing: HashMap::new(),
            lateness: Vec::new(),
        };
        assert(burst@.missing =~= Map::empty());
        assert(burst@.lateness =~= Seq::empty());
        burst
    }

    /// Takes one more packet.
    pub fn add_packet(&mut self, seq: u64, len: usize, now: u64)
        requires
            old(self).count < u64::MAX,
            old(self).ooo <= old(self).count,
            old(self).bytes + len <= u64::MAX,
        ensures
            final(self)@ == with_packet(old(self)@, seq, len, now),
    {
        let ghost before = self@;
        if self.count > 0 && seq > self.max {
            let mut gap: u64 = self.max;
            assert(with_gap(before.missing, before.max, (gap + 1) as u64, now)
                =~= before.missing);
            while gap < seq - 1
                invariant
                    before.max == self.max <= gap <= seq - 1,
                    self.first == before.first,
                    self.count == before.count,
                    self.bytes == before.bytes,
                    self.ooo == before.ooo,
                    self.t0 == before.t0,
                    self.t1 == before.t1,
                    self.lateness@ == before.lateness,
                    self.missing@ == with_gap(before.missing, before.max, (gap + 1) as u64, now),
                decreases seq - 1 - gap,
            {
                gap = gap + 1;
                self.missing.insert(gap, now);
                assert(self.missing@ =~= with_gap(
                    before.missing,
                    before.max,
                    (gap + 1) as u64,
                    now,
                ));
            }
        }
        if seq < self.max || (self.count > 0 && seq == self.max) {
            self.ooo = self.ooo + 1;
            let noticed = match self.missing.get(&seq) {
                Some(t) => Some(*t),
                None => None,
            };
            if let Some(t) = noticed {
                self.lateness.push(now.saturating_sub(t));
            }
            self.missing.remove(&seq);
        } else {
            self.max = seq;
        }
        if seq < self.first {
            self.first = seq;
        }
        self.count = self.count + 1;
        self.bytes = self.bytes + len as u64;
        self.t1 = now;
        proof {
            let after = with_packet(before, seq, len, now);
            assert(self@.missing =~= after.missing);
            assert(self@.lateness =~= after.lateness);
        }
    }

    /// How many packets were sent at least, as the numbers show.
    pub fn sent_at_least(&self) -> (sent: u64)
        requires
            self.first <= self.max,
            self.max - self.first < u64::MAX,
        ensures
            sent == self.max - self.first + 1,
    {
        self.max - self.first + 1
    }
}

/// What holds of every burst: the first number is not above the highest one, and the missing ones
/// lie between them.
pub open spec fn sound(b: BurstModel) -> bool {
    &&& b.first <= b.max
    &&& b.ooo <= b.count
    &&& forall|k: u64| #[trigger] b.missing.contains_key(k) ==> b.first < k < b.max
}

/// The missing numbers of a burst always lie between its first number and its highest one.
pub proof fn law_missing_numbers_lie_inside(b: BurstModel, seq: u64, len: usize, now: u64)
    requires
        sound(b),
        b.count < u64::MAX,
    ensures
        sound(with_packet(b, seq, len, now)),
        !with_packet(b, seq, len, now).missing.contains_key(seq),
{
}

/// What came of a burst of bare datagrams, each of which starts with its number.
#[derive(Clone, Copy, Debug, PartialEq, Eq, Structural)]
pub struct BareBurst {
    pub count: u64,
    pub bytes: u64,
    /// The lowest number that came.
    pub first: u64,
    /// The highest number that came.
    pub max: u64,
}

/// The number of a bare datagram: its first eight bytes, least significant first.
pub open spec fn bare_number(datagram: Seq<u8>) -> Option<u64> {
    if datagram.len() >= 8 {
        Some(le_value(datagram.take(8)) as u64)
    } else {
        None
    }
}

/// The burst with one more datagram; one that holds no number does not count.
pub open spec fn with_datagram(burst: BareBurst, datagram: Seq<u8>) -> BareBurst {
    match bare_number(datagram) {
        Some(n) => BareBurst {
            count: (burst.count + 1) as u64,
            bytes: (burst.bytes + datagram.len()) as u64,
            first: if n < burst.first {
                n
            } else {
                burst.first
            },
            max: if n > burst.max {
                n
            } else {
                burst.max
            },
        },
        None => burst,
    }
}

impl BareBurst {
    /// A burst of which nothing has come.
    pub fn new() -> (burst: Self)
        ensures
            burst == (BareBurst { count: 0, bytes: 0, first: u64::MAX, max: 0 }),
    {
        BareBurst { count: 0, bytes: 0, first: u64::MAX, max: 0 }
    }

    /// Takes a datagram; whether it counts.
    pub fn take(&mut self, datagram: &[u8]) -> (counts: bool)
        requires
            old(self).count < u64::MAX,
            old(self).bytes + datagram@.len() <= u64::MAX,
        ensures
            *final(self) == with_datagram(*old(self), datagram@),
            counts == (bare_number(datagram@) is Some),
    {
        if datagram.len() < 8 {
            return false;
        }
        assert(datagram@.subrange(0, 8) =~= datagram@.take(8));
        let n: u64 = read_le(slice_subrange(datagram, 0, 8));
        self.count = self.count + 1;
        self.bytes = self.bytes + datagram.len() as u64;
        if n < self.first {
            self.first = n;
        }
        if n > self.max {
            self.max = n;
        }
        true
    }

    /// How many datagrams were sent at least, and how many of them are lost.
    pub fn losses(&self) -> (sent: (u64, u64))
        requires
            self.first <= self.max,
            self.max - self.first < u64::MAX,
        ensures
            sent.0 == self.max - self.first + 1,
            sent.1 == if sent.0 > self.count {
                sent.0 - self.count
            } else {
                0
            },
    {
        let sent: u64 = self.max - self.first + 1;
        (
            sent,
            if sent > self.count {
                sent - self.count
            } else {
                0
            },
        )
    }
}

/// Every number that came lies between the lowest and the highest, and as soon as one has come
/// the lowest is not above the highest.
pub proof fn law_numbers_lie_in_the_burst(datagrams: Seq<Seq<u8>>, i: int)
    requires
        0 <= i < datagrams.len(),
        bare_number(datagrams[i]) is Some,
    ensures
        ({
            let burst = with_datagrams(datagrams);
            let n = bare_number(datagrams[i])->0;
            burst.first <= n <= burst.max
        }),
    decreases datagrams.len(),
{
    if i < datagrams.len() - 1 {
        law_numbers_lie_in_the_burst(datagrams.drop_last(), i);
    }
}

/// What comes of several datagrams.
pub open spec fn with_datagrams(datagrams: Seq<Seq<u8>>) -> BareBurst
    decreases datagrams.len(),
{
    if datagrams.len() == 0 {
        BareBurst { count: 0, bytes: 0, first: u64::MAX, max: 0 }
    } else {
        with_datagram(with_datagrams(datagrams.drop_last()), datagrams.last())
    }
}

/// How long nothing comes until a burst is over, in nanoseconds.
pub const BURST_GAP: u64 = 1_500_000_000;

/// What happens to a receiver.
#[derive(Clone, Copy, Debug, PartialEq, Eq, Structural)]
pub enum BurstEvent {
    /// A packet of the measurement came.
    Packet,
    /// Something else came.
    Other,
    /// Nothing came for as long as was waited.
    Silence,
    /// Nothing will come any more.
    Closed,
}

/// What a receiver does about it, in this order.
#[derive(Clone, Copy, Debug, PartialEq, Eq, Structural)]
pub struct BurstStep {
    /// Count the packet; it opens a burst, where none is open.
    pub count: bool,
    /// Report the burst, which is over.
    pub report: bool,
    /// Receive no longer.
    pub stop: bool,
}

/// What a receiver does about an event. A burst is reported when it ends by silence, and when a
/// packet of it comes past the deadline. Past the deadline nothing more is received, but for what
/// comes beside the measurement, which is passed over; and silence without a burst is the deadline.
pub fn burst_step(open: bool, event: BurstEvent, past_deadline: bool) -> (step: BurstStep)
    ensures
        step == match event {
            BurstEvent::Packet => BurstStep {
                count: true,
                report: past_deadline,
                stop: past_deadline,
            },
            BurstEvent::Other => BurstStep { count: false, report: false, stop: false },
            BurstEvent::Silence => BurstStep {
                count: false,
                report: open,
                stop: !open || past_deadline,
            },
            BurstEvent::Closed => BurstStep { count: false, report: false, stop: true },
        },
{
    match event {
        BurstEvent::Packet => BurstStep { count: true, report: past_deadline, stop: past_deadline },
        BurstEvent::Other => BurstStep { count: false, report: false, stop: false },
        BurstEvent::Silence => BurstStep {
            count: false,
            report: open,
            stop: !open || past_deadline,
        },
        BurstEvent::Closed => BurstStep { count: false, report: false, stop: true },
    }
}

/// How long a receiver waits, `left` nanoseconds before its deadline: within a burst until it is
/// over, else until the deadline.
pub fn burst_wait(open: bool, left: u64) -> (wait: u64)
    ensures
        wait == if open {
            BURST_GAP
        } else {
            left
        },
{
    if open {
        BURST_GAP
    } else {
        left
    }
}

/// A packet of a measurement is as long as is asked, 16 bytes at least; it starts with `MLBN`, and
/// its number is read from it again.
pub proof fn law_packets_carry_their_numbers(
    number: u64,
    len: usize,
    payload: Vec<u8>,
    bytes: &[u8],
    read: Option<u64>,
)
    requires
        call_ensures(packet, (number, len), payload),
        call_ensures(packet_number, (bytes,), read),
        payload@.is_prefix_of(bytes@),
    ensures
        len >= 16 ==> payload@.len() == len,
        len < 16 ==> payload@.len() == 16,
        payload@[0] == 'M' as u8 && payload@[1] == 'L' as u8 && payload@[2] == 'B' as u8 && payload@[3]
            == 'N' as u8,
        payload@.subrange(8, 16) == le_bytes(number as nat, 8),
        read == Some(number),
{
    lemma_le_len(number as nat, 8);
    lemma_pow256_8();
    lemma_le_round_trip(number as nat, 8);
    assert(payload@.subrange(8, 16) =~= le_bytes(number as nat, 8));
    assert(bytes@.subrange(8, 16) =~= payload@.subrange(8, 16));
    assert(bytes@.take(4) =~= mark());
}

/// Bytes that do not start with `MLBN`, or are fewer than 16, are no packet of a measurement.
pub proof fn law_other_packets_carry_none(bytes: &[u8], read: Option<u64>)
    requires
        call_ensures(packet_number, (bytes,), read),
    ensures
        bytes@.len() < 16 ==> read is None,
        bytes@.len() >= 16 && !(bytes@[0] == 77 && bytes@[1] == 76 && bytes@[2] == 66 && bytes@[3] == 78)
            ==> read is None,
{
    if bytes@.len() >= 16 && bytes@.take(4) == mark() {
        assert(bytes@.take(4)[0] == mark()[0] && bytes@.take(4)[1] == mark()[1]);
        assert(bytes@.take(4)[2] == mark()[2] && bytes@.take(4)[3] == mark()[3]);
    }
}

/// Every packet counts, with its bytes, and stretches the burst to its number and its moment. One
/// above all before it has the numbers that it jumped missing from now on. One that is not above
/// them came out of order; if it was missing, it is so no longer, and how long it was is kept.
pub proof fn law_a_packet_fills_a_gap_or_leaves_one(seq: u64, len: usize, now: u64, k: u64)
    ensures
        forall|b: &mut Burst| #[trigger]
            call_ensures(Burst::add_packet, (b, seq, len, now), ()) ==> {
                let (before, after) = ((*b)@, final(b)@);
                sound(before) && 0 < before.count < u64::MAX && before.bytes + len <= u64::MAX ==> {
                    &&& after.count == before.count + 1
                    &&& after.bytes == before.bytes + len
                    &&& after.t0 == before.t0 && after.t1 == now
                    &&& after.first <= seq <= after.max
                    &&& after.first == before.first || after.first == seq
                    &&& after.first <= before.first && before.max <= after.max
                    &&& after.max == before.max || after.max == seq
                    &&& seq > before.max ==> {
                        &&& after.ooo == before.ooo
                        &&& after.lateness == before.lateness
                        &&& before.max < k < seq ==> after.missing.contains_key(k) && after.missing[k]
                            == now
                        &&& k <= before.max || k >= seq ==> (after.missing.contains_key(k)
                            <==> before.missing.contains_key(k))
                    }
                    &&& seq <= before.max ==> {
                        &&& after.ooo == before.ooo + 1
                        &&& !after.missing.contains_key(seq)
                        &&& k != seq ==> (after.missing.contains_key(k)
                            <==> before.missing.contains_key(k))
                        &&& !before.missing.contains_key(seq) ==> after.lateness == before.lateness
                        &&& before.missing.contains_key(seq) ==> after.lateness.len()
                            == before.lateness.len() + 1 && after.lateness.drop_last()
                            == before.lateness && (now >= before.missing[seq]
                            ==> after.lateness.last() == now - before.missing[seq])
                    }
                    &&& k != seq && before.missing.contains_key(k) ==> after.missing[k]
                        == before.missing[k]
                }
            },
{
    assert forall|b: &mut Burst| #[trigger]
        call_ensures(Burst::add_packet, (b, seq, len, now), ()) implies {
        let (before, after) = ((*b)@, final(b)@);
        sound(before) && 0 < before.count < u64::MAX && before.bytes + len <= u64::MAX ==> {
            &&& after.count == before.count + 1
            &&& after.bytes == before.bytes + len
            &&& after.t0 == before.t0 && after.t1 == now
            &&& after.first <= seq <= after.max
            &&& after.first == before.first || after.first == seq
            &&& after.first <= before.first && before.max <= after.max
            &&& after.max == before.max || after.max == seq
            &&& seq > before.max ==> {
                &&& after.ooo == before.ooo
                &&& after.lateness == before.lateness
                &&& before.max < k < seq ==> after.missing.contains_key(k) && after.missing[k] == now
                &&& k <= before.max || k >= seq ==> (after.missing.contains_key(k)
                    <==> before.missing.contains_key(k))
            }
            &&& seq <= before.max ==> {
                &&& after.ooo == before.ooo + 1
                &&& !after.missing.contains_key(seq)
                &&& k != seq ==> (after.missing.contains_key(k) <==> before.missing.contains_key(k))
                &&& !before.missing.contains_key(seq) ==> after.lateness == before.lateness
                &&& before.missing.contains_key(seq) ==> after.lateness.len() == before.lateness.len()
                    + 1 && after.lateness.drop_last() == before.lateness && (now
                    >= before.missing[seq] ==> after.lateness.last() == now - before.missing[seq])
            }
            &&& k != seq && before.missing.contains_key(k) ==> after.missing[k] == before.missing[k]
        }
    } by {
        let (before, after) = ((*b)@, final(b)@);
        if before.missing.contains_key(seq) {
            assert(before.lateness.push(since(before.missing[seq], now)).drop_last()
                =~= before.lateness);
        }
    }
}

/// A burst starts with the number and the moment of its first packet, before that is counted; once
/// it is, nothing is missing or out of order.
pub proof fn law_a_burst_starts_with_its_first_packet(seq: u64, now: u64, len: usize)
    ensures
        forall|b: &mut Burst| #![trigger call_ensures(Burst::add_packet, (b, seq, len, now), ())]
            call_ensures(Burst::new, (seq, now), *b) && call_ensures(
                Burst::add_packet,
                (b, seq, len, now),
                (),
            ) ==> {
                let after = final(b)@;
                &&& after.first == seq && after.max == seq
                &&& after.count == 1 && after.bytes == len && after.ooo == 0
                &&& after.t0 == now && after.t1 == now
                &&& after.missing == Map::<u64, u64>::empty()
                &&& after.lateness.len() == 0
            },
{
}

/// What was sent at least is what lies between the lowest and the highest number, both of them
/// too; what was lost of datagrams without a hole is how many of those did not come.
pub proof fn law_losses_are_numbers_that_did_not_come(
    burst: &Burst,
    sent: u64,
    bare: &BareBurst,
    losses: (u64, u64),
)
    requires
        burst.first <= burst.max,
        burst.max - burst.first < u64::MAX,
        bare.first <= bare.max,
        bare.max - bare.first < u64::MAX,
        call_ensures(Burst::sent_at_least, (burst,), sent),
        call_ensures(BareBurst::losses, (bare,), losses),
    ensures
        burst.first + sent == burst.max + 1,
        bare.first + losses.0 == bare.max + 1,
        losses.0 >= bare.count ==> losses.1 + bare.count == losses.0,
        losses.0 <= bare.count ==> losses.1 == 0,
{
}

/// A datagram of eight bytes or more counts, and its first eight bytes are its number; a shorter
/// one changes nothing.
pub proof fn law_datagrams_without_a_hole_count(datagram: &[u8], fresh: BareBurst)
    requires
        call_ensures(BareBurst::new, (), fresh),
    ensures
        fresh.count == 0 && fresh.bytes == 0 && fresh.max == 0,
        fresh.first == 0xffff_ffff_ffff_ffff,
        forall|b: &mut BareBurst, counts: bool| #[trigger]
            call_ensures(BareBurst::take, (b, datagram), counts) ==> {
                &&& counts <==> datagram@.len() >= 8
                &&& !counts ==> *final(b) == *b
                &&& counts && b.count < u64::MAX && b.bytes + datagram@.len() <= u64::MAX ==> {
                    let n = le_value(datagram@.take(8));
                    &&& final(b).count == b.count + 1
                    &&& final(b).bytes == b.bytes + datagram@.len()
                    &&& final(b).first <= n <= final(b).max
                    &&& final(b).first == b.first || final(b).first == n
                    &&& final(b).max == b.max || final(b).max == n
                    &&& final(b).first <= b.first && b.max <= final(b).max
                }
            },
{
    if datagram@.len() >= 8 {
        lemma_le_value(datagram@.take(8));
        lemma_pow256_8();
    }
}

/// A burst is over after a second and a half of silence, and is reported then, once; a packet
/// always counts; nothing is received past the deadline, nor when nothing can come.
pub proof fn law_a_burst_ends_in_silence(
    open: bool,
    event: BurstEvent,
    past_deadline: bool,
    step: BurstStep,
    left: u64,
    wait: u64,
)
    requires
        call_ensures(burst_step, (open, event, past_deadline), step),
        call_ensures(burst_wait, (open, left), wait),
    ensures
        step.count <==> event is Packet,
        event is Silence ==> (step.report <==> open),
        event is Packet ==> (step.report <==> past_deadline),
        event is Other || event is Closed ==> !step.report,
        event is Closed ==> step.stop,
        event is Other ==> !step.stop,
        event is Packet || event is Silence ==> (past_deadline ==> step.stop),
        event is Packet && !past_deadline ==> !step.stop,
        event is Silence && !past_deadline ==> (step.stop <==> !open),
        open ==> wait == 1_500_000_000,
        !open ==> wait == left,
{
}

} // verus!
