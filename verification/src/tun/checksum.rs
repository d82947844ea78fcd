//! The Internet checksum (RFC 1071).

use crate::bytes::be16;
use vstd::prelude::*;

verus! {

/// The sum of the 16-bit words of `s`; a last odd byte is the high byte of a word.
pub open spec fn word_sum(s: Seq<u8>) -> nat
    decreases s.len(),
{
    if s.len() == 0 {
        0
    } else if s.len() == 1 {
        s[0] as nat * 256
    } else {
        be16(s[0], s[1]) as nat + word_sum(s.skip(2))
    }
}

/// A sum in 16 bits with the carry added back: the number from 1 to 65535 that leaves the same
/// remainder by 65535, or 0 for 0.
pub open spec fn folded(sum: nat) -> u16 {
    if sum == 0 {
        0
    } else if sum % 65535 == 0 {
        65535
    } else {
        (sum % 65535) as u16
    }
}

/// The checksum: the complement of the folded sum.
pub open spec fn sum_of(s: Seq<u8>) -> u16 {
    (65535 - folded(word_sum(s))) as u16
}

/// The checksum of `data[from..to]`.
pub fn checksum_of(data: &[u8], from: usize, to: usize) -> (sum: u16)
    requires
        from <= to <= data@.len(),
    ensures
        sum == sum_of(data@.subrange(from as int, to as int)),
{
    let ghost s = data@.subrange(from as int, to as int);
    let ghost mut done: nat = 0;
    let mut sum: u32 = 0;
    let mut i: usize = from;
    assert(data@.subrange(i as int, to as int) =~= s);
    while i < to && to - i >= 2
        invariant
            from <= i <= to <= data@.len(),
            word_sum(s) == done + word_sum(data@.subrange(i as int, to as int)),
            sum <= 0xffff,
            sum == folded(done),
        decreases to - i,
    {
        let ghost rest = data@.subrange(i as int, to as int);
        let word: u32 = data[i] as u32 * 256 + data[i + 1] as u32;
        proof {
            assert(rest.skip(2) =~= data@.subrange(i + 2, to as int));
            assert(word == be16(rest[0], rest[1]));
            lemma_fold_step(done, word as nat);
            done = done + word as nat;
        }
        sum = sum + word;
        if sum > 0xffff {
            sum = sum - 0xffff;
        }
        i += 2;
    }
    if i < to {
        let word: u32 = data[i] as u32 * 256;
        proof {
            lemma_fold_step(done, word as nat);
            done = done + word as nat;
        }
        sum = sum + word;
        if sum > 0xffff {
            sum = sum - 0xffff;
        }
    }
    (0xffff - sum) as u16
}

/// Adding one word and the carry.
proof fn lemma_fold_step(sum: nat, word: nat)
    requires
        word <= 0xffff,
    ensures
        folded(sum + word) == if folded(sum) + word > 0xffff {
            folded(sum) + word - 0xffff
        } else {
            folded(sum) + word
        },
{
    if sum % 65535 == 0 && sum > 0 {
        assert((sum + word) % 65535 == word % 65535);
    }
}

/// The checksum of `data`.
pub fn checksum(data: &[u8]) -> (sum: u16)
    ensures
        sum == sum_of(data@),
{
    assert(data@.subrange(0, data@.len() as int) =~= data@);
    checksum_of(data, 0, data.len())
}

/// `s` with the word at `at` replaced.
pub open spec fn with_word(s: Seq<u8>, at: int, hi: u8, lo: u8) -> Seq<u8> {
    s.update(at, hi).update(at + 1, lo)
}

proof fn lemma_word_replaced(s: Seq<u8>, at: int, hi: u8, lo: u8)
    requires
        0 <= at,
        at % 2 == 0,
        at + 1 < s.len(),
    ensures
        word_sum(with_word(s, at, hi, lo)) + be16(s[at], s[at + 1]) == word_sum(s) + be16(hi, lo),
    decreases s.len(),
{
    let t = with_word(s, at, hi, lo);
    if at == 0 {
        assert(t.skip(2) =~= s.skip(2));
    } else {
        assert(t.skip(2) =~= with_word(s.skip(2), at - 2, hi, lo));
        lemma_word_replaced(s.skip(2), at - 2, hi, lo);
    }
}

/// A checksum that is put into its place, which was zero, makes the whole sum up to nothing: the
/// checksum over it is 0.
pub proof fn law_checksum_in_place_verifies(s: Seq<u8>, at: int)
    requires
        0 <= at,
        at % 2 == 0,
        at + 1 < s.len(),
        s[at] == 0,
        s[at + 1] == 0,
    ensures
        sum_of(with_word(s, at, (sum_of(s) / 256) as u8, (sum_of(s) % 256) as u8)) == 0,
{
    let c = sum_of(s);
    lemma_word_replaced(s, at, (c / 256) as u8, (c % 256) as u8);
    assert(be16((c / 256) as u8, (c % 256) as u8) == c);
    assert(be16(0, 0) == 0);
    let whole = word_sum(s) + c as nat;
    assert(whole % 65535 == 0) by {
        let sum = word_sum(s);
        if sum > 0 && sum % 65535 != 0 {
            assert(c == 65535 - sum % 65535);
        }
    }
    assert(whole > 0);
}

proof fn lemma_word_sum_joined(s: Seq<u8>, t: Seq<u8>)
    requires
        s.len() % 2 == 0,
    ensures
        word_sum(s + t) == word_sum(s) + word_sum(t),
    decreases s.len(),
{
    if s.len() == 0 {
        assert(s + t =~= t);
    } else {
        lemma_word_sum_joined(s.skip(2), t);
        assert((s + t).skip(2) =~= s.skip(2) + t);
        assert((s + t)[0] == s[0] && (s + t)[1] == s[1]);
    }
}

/// A word more in the data takes its number off the checksum, the high byte first, where numbers
/// count modulo 65535.
pub proof fn law_each_word_counts(data: &[u8], more: &[u8], hi: u8, lo: u8, sum: u16, after: u16)
    requires
        data@.len() % 2 == 0,
        more@ == data@.push(hi).push(lo),
        call_ensures(checksum, (data,), sum),
        call_ensures(checksum, (more,), after),
    ensures
        (sum - after - (hi * 256 + lo)) % 65535 == 0,
{
    let word = seq![hi, lo];
    assert(more@ =~= data@ + word);
    lemma_word_sum_joined(data@, word);
    assert(word.skip(2) =~= Seq::<u8>::empty());
    reveal_with_fuel(word_sum, 2);
    let (a, w) = (word_sum(data@) as int, hi * 256 + lo);
    assert(word_sum(word) == w);
    assert(word_sum(more@) == a + w);
    let (x, y) = (folded(a as nat) as int, folded((a + w) as nat) as int);
    assert(x % 65535 == a % 65535);
    assert(y % 65535 == (a + w) % 65535);
    assert(sum - after - w == y - x - w);
    assert((y - x - w) % 65535 == 0) by {
        let (p, q) = (a / 65535, (a + w) / 65535);
        assert((y - (a + w)) % 65535 == 0);
        assert((x - a) % 65535 == 0);
    }
}

/// A byte more, where no other follows, counts as the high byte of a word.
pub proof fn law_a_last_byte_is_a_high_one(data: &[u8], odd: &[u8], even: &[u8], b: u8, sum: u16, other: u16)
    requires
        data@.len() % 2 == 0,
        odd@ == data@.push(b),
        even@ == data@.push(b).push(0),
        call_ensures(checksum, (odd,), sum),
        call_ensures(checksum, (even,), other),
    ensures
        sum == other,
{
    assert(odd@ =~= data@ + seq![b]);
    assert(even@ =~= data@ + seq![b, 0u8]);
    lemma_word_sum_joined(data@, seq![b]);
    lemma_word_sum_joined(data@, seq![b, 0u8]);
    assert(seq![b, 0u8].skip(2) =~= Seq::<u8>::empty());
    reveal_with_fuel(word_sum, 2);
}

proof fn lemma_nothing_sums_to_nothing(s: Seq<u8>)
    ensures
        word_sum(s) == 0 <==> forall|i: int| 0 <= i < s.len() ==> s[i] == 0,
    decreases s.len(),
{
    if s.len() >= 2 {
        let rest = s.skip(2);
        lemma_nothing_sums_to_nothing(rest);
        if word_sum(s) == 0 {
            assert forall|i: int| 0 <= i < s.len() implies s[i] == 0 by {
                if i >= 2 {
                    assert(s[i] == rest[i - 2]);
                }
            }
        } else if forall|i: int| 0 <= i < s.len() ==> s[i] == 0 {
            assert(s[0] == 0 && s[1] == 0);
            assert forall|i: int| 0 <= i < rest.len() implies rest[i] == 0 by {
                assert(rest[i] == s[i + 2]);
            }
        }
    }
}

/// The checksum is 65535 where there is nothing to sum up, and nowhere else.
pub proof fn law_only_zeros_have_the_highest_checksum(data: &[u8], sum: u16)
    requires
        call_ensures(checksum, (data,), sum),
    ensures
        sum == 65535 <==> forall|i: int| 0 <= i < data@.len() ==> data@[i] == 0,
{
    lemma_nothing_sums_to_nothing(data@);
}

} // verus!
