//! XOR of a packet with a 16-byte vector that is repeated cyclically.
//!
//! Whole blocks are taken first, then blocks of 16, then the remaining bytes. Every block width
//! is a multiple of 16, so the vector starts anew with every block.

use vstd::prelude::*;

verus! {

pub const KEY_LEN: usize = 16;

/// XOR vector of one hole in one direction.
pub type XorKey = [u8; 16];

/// `data` XORed with `key`, repeated cyclically.
pub open spec fn xored(data: Seq<u8>, key: Seq<u8>) -> Seq<u8> {
    Seq::new(data.len(), |i: int| data[i] ^ key[i % 16])
}

/// The bytes repeat a vector of 16.
#[verifier::opaque]
pub open spec fn periodic(pad: Seq<u8>) -> bool {
    forall|i: int| 0 <= i < pad.len() ==> #[trigger] pad[i] == pad[i % 16]
}

proof fn lemma_periodic(pad: Seq<u8>, i: int)
    requires
        periodic(pad),
        0 <= i < pad.len(),
    ensures
        pad[i] == pad[i % 16],
{
    reveal(periodic);
}

/// The vector repeated to the widest block.
pub fn expand(key: &XorKey) -> (pad: [u8; 64])
    ensures
        periodic(pad@),
        pad@.take(16) == key@,
{
    let mut pad: [u8; 64] = [0u8; 64];
    let mut i: usize = 0;
    while i < 64
        invariant
            i <= 64,
            forall|k: int| 0 <= k < i ==> #[trigger] pad@[k] == key@[k % 16],
        decreases 64 - i,
    {
        pad[i] = key[i % 16];
        i += 1;
    }
    proof {
        assert(pad@.take(16) =~= key@);
        assert forall|k: int| 0 <= k < 64 implies #[trigger] pad@[k] == pad@[k % 16] by {
            assert(pad@[k % 16] == key@[(k % 16) % 16]);
        }
        reveal(periodic);
    }
    pad
}

/// XORs the whole blocks of `N` bytes that start at `from`; where the remainder begins.
pub fn xor_blocks<const N: usize>(data: &mut [u8], from: usize, pad: &[u8; 64]) -> (end: usize)
    requires
        N == 16 || N == 32 || N == 64,
        from % 16 == 0,
        from <= old(data)@.len(),
        periodic(pad@),
    ensures
        from <= end <= final(data)@.len(),
        end % 16 == 0,
        final(data)@.len() - end < N,
        final(data)@.len() == old(data)@.len(),
        forall|i: int| 0 <= i < final(data)@.len() ==> #[trigger] final(data)@[i] == if from <= i < end {
            old(data)@[i] ^ pad@[i % 16]
        } else {
            old(data)@[i]
        },
{
    let len: usize = data.len();
    let mut at: usize = from;
    while len - at >= N
        invariant
            N == 16 || N == 32 || N == 64,
            periodic(pad@),
            from <= at <= len,
            at % 16 == 0,
            len == data@.len() == old(data)@.len(),
            forall|i: int| 0 <= i < len ==> #[trigger] data@[i] == if from <= i < at {
                old(data)@[i] ^ pad@[i % 16]
            } else {
                old(data)@[i]
            },
        decreases len - at,
    {
        let mut k: usize = 0;
        while k < N
            invariant
                N == 16 || N == 32 || N == 64,
                periodic(pad@),
                from <= at,
                at + N <= len,
                at % 16 == 0,
                k <= N,
                len == data@.len() == old(data)@.len(),
                forall|i: int| 0 <= i < len ==> #[trigger] data@[i] == if from <= i < at + k {
                    old(data)@[i] ^ pad@[i % 16]
                } else {
                    old(data)@[i]
                },
            decreases N - k,
        {
            proof {
                lemma_periodic(pad@, k as int);
            }
            assert((at + k) as int % 16 == k as int % 16);
            data[at + k] = data[at + k] ^ pad[k];
            k += 1;
        }
        at += N;
    }
    at
}

/// XORs blocks of `N` bytes, then the rest by blocks of 16 bytes, then byte by byte.
pub fn xor_wide<const N: usize>(data: &mut [u8], pad: &[u8; 64])
    requires
        N == 16 || N == 32 || N == 64,
        periodic(pad@),
    ensures
        final(data)@ == xored(old(data)@, pad@),
{
    let wide: usize = xor_blocks::<N>(data, 0, pad);
    let narrow: usize = xor_blocks::<16>(data, wide, pad);
    let len: usize = data.len();
    let mut i: usize = narrow;
    while i < len
        invariant
            narrow <= i <= len,
            narrow % 16 == 0,
            len - narrow < 16,
            periodic(pad@),
            len == data@.len() == old(data)@.len(),
            forall|k: int| 0 <= k < len ==> #[trigger] data@[k] == if k < i {
                old(data)@[k] ^ pad@[k % 16]
            } else {
                old(data)@[k]
            },
        decreases len - i,
    {
        proof {
            lemma_periodic(pad@, i - narrow);
        }
        assert((i - narrow) % 16 == i as int % 16);
        data[i] = data[i] ^ pad[i - narrow];
        i += 1;
    }
    assert(data@ =~= xored(old(data)@, pad@));
}

/// The kernel for any processor: 16 bytes at a time.
pub fn xor_baseline(data: &mut [u8], pad: &[u8; 64])
    requires
        periodic(pad@),
    ensures
        final(data)@ == xored(old(data)@, pad@),
{
    xor_wide::<16>(data, pad);
}

/// XORs `data` with `key`, repeated cyclically.
pub fn xor_in_place(data: &mut [u8], key: &XorKey)
    ensures
        final(data)@ == xored(old(data)@, key@),
{
    let pad: [u8; 64] = expand(key);
    xor_baseline(data, &pad);
    proof {
        assert forall|i: int| 0 <= i < 16 implies #[trigger] pad@[i] == key@[i] by {
            assert(pad@.take(16)[i] == key@[i]);
        }
        assert(data@ =~= xored(old(data)@, key@));
    }
}

/// XOR with the same vector twice restores the data.
pub proof fn law_xor_twice_restores_data(data: Seq<u8>, key: Seq<u8>)
    ensures
        xored(xored(data, key), key) == data,
{
    assert forall|i: int| 0 <= i < data.len() implies #[trigger] xored(xored(data, key), key)[i] == data[i] by {
        let (a, b) = (data[i], key[i % 16]);
        assert((a ^ b) ^ b == a) by (bit_vector);
    }
    assert(xored(xored(data, key), key) =~= data);
}

/// Every byte is combined with the byte of the key whose turn it is; 16 bytes take turns.
pub proof fn law_the_key_comes_over_and_over(key: &XorKey, i: int)
    ensures
        forall|data: &mut [u8]| #[trigger]
            call_ensures(xor_in_place, (data, key), ()) ==> {
                &&& final(data)@.len() == (*data)@.len()
                &&& 0 <= i < (*data)@.len() ==> final(data)@[i] == (*data)@[i] ^ key@[i % 16]
            },
{
}

} // verus!
