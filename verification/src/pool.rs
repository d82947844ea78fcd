//! Bank of fixed-size packet buffers.
//!
//! A packet in a hole never exceeds [`PACKET_CAP`] bytes, so instead of allocating memory for
//! every packet a buffer is taken from the bank and given back once the packet is no longer
//! needed. The bank keeps at most [`POOL_SIZE`] free buffers.

use vstd::prelude::*;

verus! {

/// Size of one buffer: more than any packet in a hole.
pub const PACKET_CAP: usize = 1500;

/// How many free buffers the bank keeps.
pub const POOL_SIZE: usize = 100;

/// The free buffers, and how many buffers were ever allocated.
pub struct Bank {
    free: Vec<Box<[u8; PACKET_CAP]>>,
    allocated: u32,
}

impl Bank {
    /// Number of free buffers.
    pub closed spec fn free_count(&self) -> nat {
        self.free@.len()
    }

    /// Number of buffers allocated so far (modulo 2^32).
    pub closed spec fn allocated_count(&self) -> u32 {
        self.allocated
    }

    /// A buffer was taken: a free one, or a fresh one where there was none.
    pub open spec fn lends(&self, after: &Self) -> bool {
        if self.free_count() > 0 {
            &&& after.free_count() == self.free_count() - 1
            &&& after.allocated_count() == self.allocated_count()
        } else {
            &&& after.free_count() == 0
            &&& after.allocated_count() == self.allocated_count().wrapping_add(1)
        }
    }

    /// The bank never keeps more than [`POOL_SIZE`] buffers.
    pub open spec fn wf(&self) -> bool {
        self.free_count() <= POOL_SIZE
    }

    pub fn new() -> (bank: Self)
        ensures
            bank.wf(),
            bank.free_count() == 0,
            bank.allocated_count() == 0,
    {
        Self { free: Vec::new(), allocated: 0 }
    }

    /// A free buffer, or a fresh one when there is none.
    fn take(&mut self) -> (buf: Box<[u8; PACKET_CAP]>)
        ensures
            old(self).lends(final(self)),
    {
        match self.free.pop() {
            Some(buf) => buf,
            None => {
                self.allocated = self.allocated.wrapping_add(1);
                Box::new([0u8; PACKET_CAP])
            },
        }
    }

    /// Takes a buffer back; a full bank lets it go.
    fn give_back(&mut self, buf: Box<[u8; PACKET_CAP]>)
        ensures
            final(self).free_count() == if old(self).free_count() < POOL_SIZE {
                old(self).free_count() + 1
            } else {
                old(self).free_count()
            },
            final(self).allocated_count() == old(self).allocated_count(),
    {
        if self.free.len() < POOL_SIZE {
            self.free.push(buf);
        }
    }

    /// How many buffers were ever allocated and how many are free now.
    pub fn stats(&self) -> (stats: (u32, usize))
        ensures
            stats.0 == self.allocated_count(),
            stats.1 == self.free_count(),
    {
        (self.allocated, self.free.len())
    }
}

/// A packet in a buffer of the bank.
#[derive(Debug)]
pub struct Packet {
    buf: Box<[u8; PACKET_CAP]>,
    len: usize,
}

impl View for Packet {
    type V = Seq<u8>;

    closed spec fn view(&self) -> Seq<u8> {
        self.buf@.subrange(0, self.len as int)
    }
}

impl Packet {
    #[verifier::type_invariant]
    spec fn fits(self) -> bool {
        self.len <= PACKET_CAP
    }

    /// A copy of `data` in a buffer of `bank`; `None` if the data is larger than a buffer.
    pub fn copy_from_bank(bank: &mut Bank, data: &[u8]) -> (packet: Option<Self>)
        ensures
            packet is Some <==> data@.len() <= PACKET_CAP,
            packet matches Some(p) ==> p@ == data@ && old(bank).lends(final(bank)),
            packet is None ==> *final(bank) == *old(bank),
    {
        if data.len() > PACKET_CAP {
            return None;
        }
        let mut buf = bank.take();
        let mut i: usize = 0;
        while i < data.len()
            invariant
                i <= data@.len() <= PACKET_CAP,
                forall|k: int| 0 <= k < i ==> buf@[k] == data@[k],
            decreases data@.len() - i,
        {
            buf[i] = data[i];
            i += 1;
        }
        let packet = Self { buf, len: data.len() };
        assert(packet@ =~= data@);
        Some(packet)
    }

    /// A copy of `data` in a buffer of its own; `None` if the data is larger than a buffer.
    pub fn copy_from(data: &[u8]) -> (packet: Option<Self>)
        ensures
            packet is Some <==> data@.len() <= PACKET_CAP,
            packet matches Some(p) ==> p@ == data@,
    {
        let mut bank = Bank::new();
        Self::copy_from_bank(&mut bank, data)
    }

    /// Returns the buffer of a packet that is no longer needed.
    pub fn release(self, bank: &mut Bank)
        ensures
            final(bank).free_count() == if old(bank).free_count() < POOL_SIZE {
                old(bank).free_count() + 1
            } else {
                old(bank).free_count()
            },
            final(bank).allocated_count() == old(bank).allocated_count(),
    {
        bank.give_back(self.buf);
    }

    pub fn len(&self) -> (len: usize)
        ensures
            len == self@.len(),
    {
        proof { use_type_invariant(self); }
        self.len
    }

    /// The packet holds these bytes.
    pub fn same(&self, other: &[u8]) -> (same: bool)
        ensures
            same == (self@ == other@),
    {
        proof { use_type_invariant(self); }
        if self.len != other.len() {
            return false;
        }
        let mut i: usize = 0;
        while i < self.len
            invariant
                i <= self.len == other@.len(),
                self.len <= PACKET_CAP,
                forall|k: int| 0 <= k < i ==> self.buf@[k] == other@[k],
            decreases self.len - i,
        {
            if self.buf[i] != other[i] {
                assert(self@[i as int] != other@[i as int]);
                return false;
            }
            i += 1;
        }
        assert(self@ =~= other@);
        true
    }

    /// The bytes of the packet.
    pub fn as_slice(&self) -> (bytes: &[u8])
        ensures
            bytes@ == self@,
    {
        proof { use_type_invariant(self); }
        vstd::slice::slice_subrange(self.buf.as_slice(), 0, self.len)
    }
}

impl PartialEq for Packet {
    /// Packets are equal if their bytes are.
    fn eq(&self, other: &Self) -> (same: bool) {
        self.same(other.as_slice())
    }
}

impl vstd::std_specs::cmp::PartialEqSpecImpl for Packet {
    open spec fn obeys_eq_spec() -> bool {
        true
    }

    open spec fn eq_spec(&self, other: &Self) -> bool {
        self@ == other@
    }
}

impl PartialEq<[u8]> for Packet {
    fn eq(&self, other: &[u8]) -> (same: bool) {
        self.same(other)
    }
}

impl vstd::std_specs::cmp::PartialEqSpecImpl<[u8]> for Packet {
    open spec fn obeys_eq_spec() -> bool {
        true
    }

    open spec fn eq_spec(&self, other: &[u8]) -> bool {
        self@ == other@
    }
}

impl PartialEq<Vec<u8>> for Packet {
    fn eq(&self, other: &Vec<u8>) -> (same: bool) {
        self.same(other.as_slice())
    }
}

impl vstd::std_specs::cmp::PartialEqSpecImpl<Vec<u8>> for Packet {
    open spec fn obeys_eq_spec() -> bool {
        true
    }

    open spec fn eq_spec(&self, other: &Vec<u8>) -> bool {
        self@ == other@
    }
}

impl<const N: usize> PartialEq<&[u8; N]> for Packet {
    fn eq(&self, other: &&[u8; N]) -> (same: bool) {
        self.same(other.as_slice())
    }
}

impl<const N: usize> vstd::std_specs::cmp::PartialEqSpecImpl<&[u8; N]> for Packet {
    open spec fn obeys_eq_spec() -> bool {
        true
    }

    open spec fn eq_spec(&self, other: &&[u8; N]) -> bool {
        self@ == other@
    }
}

/// Statistics of a bank: how many buffers were ever allocated and how many are free now.
pub fn stats(bank: &Bank) -> (stats: (u32, usize))
    ensures
        stats.0 == bank.allocated_count(),
        stats.1 == bank.free_count(),
{
    bank.stats()
}

/// A packet of at most 1500 bytes is copied as it is, into a free buffer if there is one and into
/// a new one otherwise; a longer one is not, and nothing changes.
pub proof fn law_packets_up_to_1500_bytes_are_copied(data: &[u8], plain: Option<Packet>)
    requires
        call_ensures(Packet::copy_from, (data,), plain),
    ensures
        plain is Some <==> data@.len() <= 1500,
        plain matches Some(p) ==> p@ == data@,
        forall|bank: &mut Bank, packet: Option<Packet>| #[trigger]
            call_ensures(Packet::copy_from_bank, (bank, data), packet) ==> {
                &&& packet is Some <==> data@.len() <= 1500
                &&& packet is None ==> *final(bank) == *bank
                &&& packet matches Some(p) ==> {
                    &&& p@ == data@
                    &&& bank.free_count() > 0 ==> final(bank).free_count() + 1 == bank.free_count()
                        && final(bank).allocated_count() == bank.allocated_count()
                    &&& bank.free_count() == 0 ==> final(bank).free_count() == 0
                    &&& bank.free_count() == 0 && bank.allocated_count() < u32::MAX
                        ==> final(bank).allocated_count() == bank.allocated_count() + 1
                }
            },
{
}

/// A bank starts without buffers, and keeps what is given back up to 100 of them: what is given
/// back is lent again before anything new is.
pub proof fn law_a_bank_keeps_100_buffers(bank: Bank, shown: (u32, usize), packet: Packet)
    requires
        call_ensures(Bank::new, (), bank),
        call_ensures(stats, (&bank,), shown),
    ensures
        shown == (0u32, 0usize),
        bank.wf(),
        forall|b: &mut Bank| #[trigger]
            call_ensures(Packet::release, (packet, b), ()) ==> {
                &&& b.free_count() < 100 ==> final(b).free_count() == b.free_count() + 1
                &&& b.free_count() >= 100 ==> final(b).free_count() == b.free_count()
                &&& final(b).allocated_count() == b.allocated_count()
                &&& b.free_count() <= 100 ==> final(b).free_count() <= 100
            },
{
}

} // verus!
