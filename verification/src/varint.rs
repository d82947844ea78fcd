//! Numbers of variable length: seven bits to a byte, the lowest first; the top bit says that
//! another byte follows.

use vstd::prelude::*;

verus! {

/// The longest number that is read.
pub const MAX_VARINT: usize = 10;

/// A number as bytes.
pub open spec fn varint(v: nat) -> Seq<u8>
    decreases v,
{
    if v < 128 {
        seq![v as u8]
    } else {
        seq![(v % 128 + 128) as u8] + varint(v / 128)
    }
}

/// How many bytes at the beginning of `s`, of at most `limit`, make up a number.
pub open spec fn varint_span(s: Seq<u8>, limit: nat) -> Option<nat>
    decreases limit,
{
    if limit == 0 || s.len() == 0 {
        None
    } else if s[0] < 128 {
        Some(1)
    } else {
        match varint_span(s.drop_first(), (limit - 1) as nat) {
            Some(n) => Some(n + 1),
            None => None,
        }
    }
}

/// The number that the low seven bits of the bytes make up.
pub open spec fn varint_value(s: Seq<u8>) -> nat
    decreases s.len(),
{
    if s.len() == 0 {
        0
    } else {
        (s[0] % 128) as nat + 128 * varint_value(s.drop_first())
    }
}

/// The number at the beginning of `s`, without what does not fit into 64 bits, and its length.
pub open spec fn read_varint(s: Seq<u8>) -> Option<(u64, nat)> {
    match varint_span(s, MAX_VARINT as nat) {
        Some(n) => Some(((varint_value(s.take(n as int)) % 0x1_0000_0000_0000_0000) as u64, n)),
        None => None,
    }
}

/// 128 to the power of `n`.
pub open spec fn pow128(n: nat) -> nat
    decreases n,
{
    if n == 0 {
        1
    } else {
        128 * pow128((n - 1) as nat)
    }
}

proof fn lemma_pow128()
    ensures
        pow128(0) == 1,
        pow128(1) == 128,
        pow128(9) == 0x8000_0000_0000_0000,
        pow128(10) > 0x1_0000_0000_0000_0000,
{
    reveal_with_fuel(pow128, 11);
}

proof fn lemma_pow128_monotone(a: nat, b: nat)
    requires
        a <= b,
    ensures
        1 <= pow128(a) <= pow128(b),
    decreases b,
{
    if a < b {
        lemma_pow128_monotone(a, (b - 1) as nat);
    } else if a > 0 {
        lemma_pow128_monotone((a - 1) as nat, (a - 1) as nat);
    }
}

/// A written number is read back, whatever follows it.
pub proof fn lemma_varint_read_back(v: nat, rest: Seq<u8>, limit: nat)
    requires
        limit > 0,
        v < pow128(limit),
    ensures
        1 <= varint(v).len() <= limit,
        varint_span(varint(v) + rest, limit) == Some(varint(v).len()),
        varint_value(varint(v)) == v,
    decreases limit,
{
    let s = varint(v) + rest;
    if v < 128 {
        assert(s[0] == v as u8);
        assert(varint(v).drop_first() =~= Seq::<u8>::empty());
        assert(varint_value(varint(v)) == v) by {
            reveal_with_fuel(varint_value, 2);
        }
    } else {
        let b = (v % 128 + 128) as u8;
        assert(limit > 1) by {
            lemma_pow128();
        }
        lemma_varint_read_back(v / 128, rest, (limit - 1) as nat);
        assert(varint(v)[0] == b);
        assert(s[0] == b);
        assert(s.drop_first() =~= varint(v / 128) + rest);
        assert(varint(v).drop_first() =~= varint(v / 128));
        assert(b % 128 == v % 128);
    }
}

/// A 64-bit number is read back, whatever follows it.
pub proof fn law_varint_round_trip(v: u64, rest: Seq<u8>)
    ensures
        read_varint(varint(v as nat) + rest) == Some((v, varint(v as nat).len())),
        1 <= varint(v as nat).len() <= MAX_VARINT,
{
    lemma_pow128();
    lemma_varint_read_back(v as nat, rest, 10);
    let n = varint(v as nat).len();
    assert((varint(v as nat) + rest).take(n as int) =~= varint(v as nat));
}

/// How many bytes a number takes.
pub fn varint_len(v: u64) -> (n: usize)
    ensures
        n == varint(v as nat).len(),
        1 <= n <= MAX_VARINT,
{
    let mut rest: u64 = v;
    let mut n: usize = 1;
    proof {
        law_varint_round_trip(v, Seq::empty());
    }
    while rest >= 0x80
        invariant
            1 <= n,
            n - 1 + varint(rest as nat).len() == varint(v as nat).len(),
            varint(v as nat).len() <= MAX_VARINT,
        decreases rest,
    {
        proof {
            law_varint_round_trip(rest / 128, Seq::empty());
        }
        rest = rest / 128;
        n += 1;
    }
    n
}

/// A span is within the bytes and the limit, and every byte but its last goes on.
proof fn lemma_span(s: Seq<u8>, limit: nat)
    ensures
        varint_span(s, limit) matches Some(n) ==> 1 <= n <= s.len() && n <= limit,
    decreases limit,
{
    if limit > 0 && s.len() > 0 && s[0] >= 128 {
        lemma_span(s.drop_first(), (limit - 1) as nat);
    }
}

proof fn lemma_span_extended(s: Seq<u8>, more: Seq<u8>, limit: nat)
    requires
        varint_span(s, limit) is Some,
    ensures
        varint_span(s + more, limit) == varint_span(s, limit),
    decreases limit,
{
    assert((s + more)[0] == s[0]);
    if s[0] >= 128 {
        assert((s + more).drop_first() =~= s.drop_first() + more);
        lemma_span_extended(s.drop_first(), more, (limit - 1) as nat);
    }
}

/// A number that is read is read the same whatever follows.
pub proof fn lemma_read_extended(s: Seq<u8>, more: Seq<u8>)
    requires
        read_varint(s) is Some,
    ensures
        read_varint(s + more) == read_varint(s),
        1 <= (read_varint(s)->0).1 <= s.len(),
{
    lemma_span(s, MAX_VARINT as nat);
    lemma_span_extended(s, more, MAX_VARINT as nat);
    let n = (read_varint(s)->0).1;
    assert((s + more).take(n as int) =~= s.take(n as int));
}

/// Bytes that go on, and then a last one: that is the span.
proof fn lemma_span_is(s: Seq<u8>, n: nat, limit: nat)
    requires
        1 <= n <= limit,
        n <= s.len(),
        forall|k: int| 0 <= k < n - 1 ==> s[k] >= 128,
        s[n - 1] < 128,
    ensures
        varint_span(s, limit) == Some(n),
    decreases n,
{
    if n > 1 {
        let t = s.drop_first();
        assert(forall|k: int| 0 <= k < n - 2 ==> t[k] == s[k + 1]);
        lemma_span_is(t, (n - 1) as nat, (limit - 1) as nat);
    }
}

/// Bytes that go on up to the end, or up to the limit, make up no number.
proof fn lemma_no_span(s: Seq<u8>, limit: nat)
    requires
        forall|k: int| 0 <= k < s.len() && k < limit ==> s[k] >= 128,
    ensures
        varint_span(s, limit) is None,
    decreases limit,
{
    if limit > 0 && s.len() > 0 {
        let t = s.drop_first();
        assert(forall|k: int| 0 <= k < t.len() && k < limit - 1 ==> t[k] == s[k + 1]);
        lemma_no_span(t, (limit - 1) as nat);
    }
}

/// One more byte.
proof fn lemma_value_push(s: Seq<u8>, b: u8)
    ensures
        varint_value(s.push(b)) == varint_value(s) + (b % 128) as nat * pow128(s.len()),
    decreases s.len(),
{
    let t = s.push(b);
    if s.len() == 0 {
        assert(t.drop_first() =~= Seq::<u8>::empty());
        reveal_with_fuel(varint_value, 2);
        assert((b % 128) as nat * 1 == (b % 128) as nat);
    } else {
        assert(t.drop_first() =~= s.drop_first().push(b));
        lemma_value_push(s.drop_first(), b);
        let (x, p, v) = ((b % 128) as nat, pow128((s.len() - 1) as nat), varint_value(s.drop_first()));
        assert(128 * (v + x * p) == 128 * v + x * (128 * p)) by (nonlinear_arith);
    }
}

/// The number at `buf[pos..]` and the position behind it.
pub fn get_varint(buf: &[u8], pos: usize) -> (read: Option<(u64, usize)>)
    requires
        pos <= buf@.len(),
    ensures
        read is Some <==> read_varint(buf@.skip(pos as int)) is Some,
        read matches Some((v, end)) ==> {
            &&& pos < end <= buf@.len()
            &&& read_varint(buf@.skip(pos as int)) == Some((v, (end - pos) as nat))
        },
{
    let ghost s = buf@.skip(pos as int);
    let ghost modulus: nat = 0x1_0000_0000_0000_0000;
    let size: usize = buf.len();
    let mut v: u64 = 0;
    let mut unit: u64 = 1;
    let mut i: usize = 0;
    proof {
        assert(s.take(0) =~= Seq::<u8>::empty());
        lemma_pow128();
    }
    while i < MAX_VARINT
        invariant
            i <= MAX_VARINT,
            pos + i <= size == buf@.len(),
            s == buf@.skip(pos as int),
            modulus == 0x1_0000_0000_0000_0000,
            forall|k: int| 0 <= k < i ==> s[k] >= 128,
            v == varint_value(s.take(i as int)) % modulus,
            i < MAX_VARINT ==> unit == pow128(i as nat),
        decreases MAX_VARINT - i,
    {
        if pos + i >= size {
            proof {
                lemma_no_span(s, 10);
            }
            return None;
        }
        let b: u8 = buf[pos + i];
        let part: u64 = ((b % 128) as u64).wrapping_mul(unit);
        let ghost old_v = v;
        v = v.wrapping_add(part);
        proof {
            assert(s[i as int] == b);
            assert(s.take(i + 1) =~= s.take(i as int).push(b));
            lemma_value_push(s.take(i as int), b);
            let whole = varint_value(s.take(i as int));
            let x = (b % 128) as nat * pow128(i as nat);
            assert(part == x % modulus);
            assert(old_v == whole % modulus);
            assert(v == (old_v + part) % modulus as int);
            vstd::arithmetic::div_mod::lemma_add_mod_noop(whole as int, x as int, modulus as int);
        }
        if b < 0x80 {
            proof {
                lemma_span_is(s, (i + 1) as nat, 10);
            }
            return Some((v, pos + i + 1));
        }
        i += 1;
        if i < MAX_VARINT {
            proof {
                lemma_pow128();
                lemma_pow128_monotone(i as nat, 9);
            }
            unit = unit * 128;
        }
    }
    proof {
        lemma_no_span(s, 10);
    }
    None
}

} // verus!
