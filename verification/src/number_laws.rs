//! How numbers stand in bytes.

use crate::bytes::{
    le_bytes, lemma_be_bytes, lemma_be_index, lemma_be_value, lemma_le_len, lemma_le_value, pow256,
    put_be, put_bytes, put_le, read_be, read_le, same_bytes,
};
use crate::varint::{get_varint, varint, varint_len, varint_span, varint_value};
use vstd::arithmetic::div_mod::{
    lemma_div_denominator, lemma_hoist_over_denominator, lemma_mod_multiples_vanish,
};
use vstd::arithmetic::power::{lemma_pow_adds, lemma_pow_positive, pow};
use vstd::prelude::*;

verus! {

pub proof fn lemma_pow256_is_pow(n: nat)
    ensures
        pow256(n) == pow(256, n),
    decreases n,
{
    reveal(pow);
    if n > 0 {
        lemma_pow256_is_pow((n - 1) as nat);
    }
}

pub proof fn lemma_le_index(x: nat, n: nat, i: nat)
    requires
        i < n,
    ensures
        le_bytes(x, n).len() == n,
        le_bytes(x, n)[i as int] == x as int / pow(256, i) % 256,
    decreases n,
{
    lemma_le_len(x, n);
    reveal(pow);
    if i > 0 {
        lemma_le_index(x / 256, (n - 1) as nat, (i - 1) as nat);
        lemma_pow_positive(256, (i - 1) as nat);
        lemma_div_denominator(x as int, 256, pow(256, (i - 1) as nat));
    }
}

/// A number with its lowest byte first: byte `i` counts 256 to the power of `i`.
pub proof fn law_the_lowest_byte_comes_first(x: u64, n: usize, i: int, s: &[u8], read: u64)
    requires
        s@.len() <= 8,
        call_ensures(read_le, (s,), read),
    ensures
        forall|out: &mut Vec<u8>| #[trigger]
            call_ensures(put_le, (out, x, n), ()) ==> {
                &&& final(out)@.len() == (*out)@.len() + n
                &&& final(out)@.take((*out)@.len() as int) == (*out)@
                &&& 0 <= i < n ==> final(out)@[(*out)@.len() + i] == x as int / pow(256, i as nat)
                    % 256
            },
        0 <= i < s@.len() ==> read as int / pow(256, i as nat) % 256 == s@[i],
        read < pow(256, s@.len()),
{
    lemma_le_len(x as nat, n as nat);
    if 0 <= i < n {
        lemma_le_index(x as nat, n as nat, i as nat);
    }
    lemma_le_value(s@);
    lemma_pow256_is_pow(s@.len());
    if 0 <= i < s@.len() {
        lemma_le_index(read as nat, s@.len(), i as nat);
    }
    assert forall|out: &mut Vec<u8>| #[trigger] call_ensures(put_le, (out, x, n), ()) implies {
        &&& final(out)@.len() == (*out)@.len() + n
        &&& final(out)@.take((*out)@.len() as int) == (*out)@
        &&& 0 <= i < n ==> final(out)@[(*out)@.len() + i] == x as int / pow(256, i as nat) % 256
    } by {
        assert(final(out)@.take((*out)@.len() as int) =~= (*out)@);
    }
}

/// A number with its highest byte first: the byte with `i` bytes behind it counts 256 to the power
/// of `i`.
pub proof fn law_the_highest_byte_comes_first(
    x: u128,
    n: usize,
    i: int,
    s: &[u8],
    at: usize,
    size: usize,
    read: u128,
)
    requires
        size <= 16,
        at + size <= s@.len(),
        call_ensures(read_be, (s, at, size), read),
    ensures
        forall|out: &mut Vec<u8>| #[trigger]
            call_ensures(put_be, (out, x, n), ()) ==> {
                &&& final(out)@.len() == (*out)@.len() + n
                &&& final(out)@.take((*out)@.len() as int) == (*out)@
                &&& 0 <= i < n ==> final(out)@[final(out)@.len() - 1 - i] == x as int / pow(
                    256,
                    i as nat,
                ) % 256
            },
        0 <= i < size ==> read as int / pow(256, i as nat) % 256 == s@[at + size - 1 - i],
        read < pow(256, size as nat),
{
    lemma_be_bytes(x as nat, n as nat);
    if 0 <= i {
        lemma_pow256_is_pow(i as nat);
    }
    if 0 <= i < n {
        lemma_be_index(x as nat, n as nat, i as nat);
    }
    let part = s@.subrange(at as int, at + size);
    lemma_be_value(part);
    lemma_pow256_is_pow(size as nat);
    if 0 <= i < size {
        lemma_be_index(read as nat, size as nat, i as nat);
    }
    assert forall|out: &mut Vec<u8>| #[trigger] call_ensures(put_be, (out, x, n), ()) implies {
        &&& final(out)@.len() == (*out)@.len() + n
        &&& final(out)@.take((*out)@.len() as int) == (*out)@
        &&& 0 <= i < n ==> final(out)@[final(out)@.len() - 1 - i] == x as int / pow(256, i as nat)
            % 256
    } by {
        assert(final(out)@.take((*out)@.len() as int) =~= (*out)@);
    }
}

/// Bytes are appended as they are, and compared one by one.
pub proof fn law_bytes_are_kept(data: &[u8], other: &[u8], same: bool)
    requires
        call_ensures(same_bytes, (data, other), same),
    ensures
        forall|out: &mut Vec<u8>| #[trigger]
            call_ensures(put_bytes, (out, data), ()) ==> final(out)@ == (*out)@ + data@,
        same <==> data@.len() == other@.len() && forall|i: int|
            0 <= i < data@.len() ==> data@[i] == other@[i],
{
    if data@.len() == other@.len() && forall|i: int| 0 <= i < data@.len() ==> data@[i] == other@[i] {
        assert(data@ =~= other@);
    }
}

proof fn lemma_span(s: Seq<u8>, limit: nat)
    ensures
        varint_span(s, limit) matches Some(n) ==> {
            &&& 1 <= n <= s.len() && n <= limit
            &&& s[n - 1] < 128
            &&& forall|i: int| 0 <= i < n - 1 ==> s[i] >= 128
        },
        varint_span(s, limit) is None ==> forall|i: int| 0 <= i < s.len() && i < limit ==> s[i] >= 128,
    decreases limit,
{
    if limit > 0 && s.len() > 0 && s[0] >= 128 {
        let rest = s.drop_first();
        lemma_span(rest, (limit - 1) as nat);
        assert forall|i: int| 0 < i < s.len() implies s[i] == rest[i - 1] by {}
    }
}

proof fn lemma_sevens(s: Seq<u8>, i: nat)
    requires
        i < s.len(),
    ensures
        varint_value(s) as int / pow(128, i) % 128 == s[i as int] % 128,
    decreases s.len(),
{
    reveal(pow);
    let rest = s.drop_first();
    let (low, high) = ((s[0] % 128) as int, varint_value(rest) as int);
    assert((low + 128 * high) / 128 == high && (low + 128 * high) % 128 == low);
    if i > 0 {
        lemma_sevens(rest, (i - 1) as nat);
        lemma_pow_positive(128, (i - 1) as nat);
        lemma_div_denominator(varint_value(s) as int, 128, pow(128, (i - 1) as nat));
    }
}

/// What is left of a number by 2 to the power of 64 has its seven-bit groups, but for the tenth.
proof fn lemma_low_sevens(v: nat, i: nat)
    requires
        i < 9,
    ensures
        (v as int % 0x1_0000_0000_0000_0000) / pow(128, i) % 128 == v as int / pow(128, i) % 128,
{
    let (p, other, all) = (pow(128, i), pow(128, (8 - i) as nat), 0x1_0000_0000_0000_0000int);
    lemma_pow_positive(128, i);
    lemma_pow_adds(128, i, (8 - i) as nat);
    assert(pow(128, 8) == 0x100_0000_0000_0000) by {
        reveal_with_fuel(pow, 9);
    }
    let (q, r) = (v as int / all, v as int % all);
    let j = 128 * (2 * other * q);
    assert(v == r + j * p) by (nonlinear_arith)
        requires
            v == all * q + r,
            j == 128 * (2 * other * q),
            all == 256 * (p * other),
    ;
    lemma_hoist_over_denominator(r, j, p as nat);
    lemma_mod_multiples_vanish(2 * other * q, r / p, 128);
}

/// A number of variable length: every byte but the last has its high bit set, there are at most
/// ten, and byte `i` holds the seven bits that count 128 to the power of `i`. There is no number
/// where none of the first ten bytes is a last one.
pub proof fn law_a_number_of_variable_length_is_read_by_sevens(
    buf: &[u8],
    pos: usize,
    read: Option<(u64, usize)>,
    i: int,
)
    requires
        pos <= buf@.len(),
        call_ensures(get_varint, (buf, pos), read),
    ensures
        read matches Some((v, end)) ==> {
            &&& pos < end <= pos + 10 && end <= buf@.len()
            &&& buf@[end - 1] < 128
            &&& 0 <= i < end - pos - 1 ==> buf@[pos + i] >= 128
            &&& 0 <= i < end - pos && i < 9 ==> v as int / pow(128, i as nat) % 128 == buf@[pos + i]
                % 128
        },
        read is None && 0 <= i < 10 && pos + i < buf@.len() ==> buf@[pos + i] >= 128,
{
    let s = buf@.skip(pos as int);
    lemma_span(s, 10);
    if 0 <= i && pos + i < buf@.len() {
        assert(s[i] == buf@[pos + i]);
    }
    if let Some((v, end)) = read {
        assert(s[end - pos - 1] == buf@[end - 1]);
        let part = s.take(end - pos);
        if 0 <= i < end - pos && i < 9 {
            lemma_sevens(part, i as nat);
            lemma_low_sevens(varint_value(part), i as nat);
            assert(part[i] == buf@[pos + i]);
        }
    }
}

proof fn lemma_varint_size(v: nat)
    ensures
        varint(v).len() >= 1,
        v < pow(128, varint(v).len()),
        varint(v).len() > 1 ==> v >= pow(128, (varint(v).len() - 1) as nat),
    decreases v,
{
    reveal(pow);
    if v < 128 {
        assert(pow(128, 1) == 128) by {
            reveal_with_fuel(pow, 2);
        }
    } else {
        let n = varint(v / 128).len();
        lemma_varint_size(v / 128);
        assert(varint(v).len() == n + 1);
        let (p, q) = (pow(128, n), pow(128, (n - 1) as nat));
        assert(pow(128, n + 1) == 128 * p);
        if n > 1 {
            assert(p == 128 * q);
        } else {
            assert(pow(128, 1) == 128) by {
                reveal_with_fuel(pow, 2);
            }
        }
    }
}

/// A number takes as few bytes as hold it, seven bits in each.
pub proof fn law_a_number_takes_as_few_bytes_as_hold_it(v: u64, n: usize)
    requires
        call_ensures(varint_len, (v,), n),
    ensures
        1 <= n <= 10,
        v < pow(128, n as nat),
        n > 1 ==> v >= pow(128, (n - 1) as nat),
{
    lemma_varint_size(v as nat);
}

} // verus!
