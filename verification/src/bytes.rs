//! Numbers and keys as bytes.

use vstd::prelude::*;

verus! {

/// 256 to the power of `n`.
pub open spec fn pow256(n: nat) -> nat
    decreases n,
{
    if n == 0 {
        1
    } else {
        256 * pow256((n - 1) as nat)
    }
}

/// The lowest `n` bytes of `x`, least significant first.
pub open spec fn le_bytes(x: nat, n: nat) -> Seq<u8>
    decreases n,
{
    if n == 0 {
        Seq::empty()
    } else {
        seq![(x % 256) as u8] + le_bytes(x / 256, (n - 1) as nat)
    }
}

/// The number whose bytes, least significant first, are `s`.
pub open spec fn le_value(s: Seq<u8>) -> nat
    decreases s.len(),
{
    if s.len() == 0 {
        0
    } else {
        s[0] as nat + 256 * le_value(s.drop_first())
    }
}

/// The number with high byte `hi` and low byte `lo`.
pub open spec fn be16(hi: u8, lo: u8) -> u16 {
    (hi * 256 + lo) as u16
}

/// The number whose bytes, most significant first, are `s`.
pub open spec fn be_value(s: Seq<u8>) -> nat
    decreases s.len(),
{
    if s.len() == 0 {
        0
    } else {
        256 * be_value(s.drop_last()) + s.last() as nat
    }
}

/// The lowest `n` bytes of `x`, most significant first.
pub open spec fn be_bytes(x: nat, n: nat) -> Seq<u8>
    decreases n,
{
    if n == 0 {
        Seq::empty()
    } else {
        be_bytes(x / 256, (n - 1) as nat).push((x % 256) as u8)
    }
}

pub proof fn lemma_be_bytes(x: nat, n: nat)
    ensures
        be_bytes(x, n).len() == n,
        x < pow256(n) ==> be_value(be_bytes(x, n)) == x,
    decreases n,
{
    if n > 0 {
        lemma_be_bytes(x / 256, (n - 1) as nat);
        assert(be_bytes(x, n).drop_last() =~= be_bytes(x / 256, (n - 1) as nat));
    }
}

pub proof fn lemma_be_value(s: Seq<u8>)
    ensures
        be_value(s) < pow256(s.len()),
        be_bytes(be_value(s), s.len()) == s,
    decreases s.len(),
{
    if s.len() > 0 {
        let t = s.drop_last();
        lemma_be_value(t);
        let v = be_value(s);
        assert(v == 256 * be_value(t) + s.last() as nat);
        assert(v / 256 == be_value(t) && v % 256 == s.last() as nat);
        assert(s =~= t.push(s.last()));
    } else {
        assert(be_bytes(0, 0) =~= s);
    }
}

pub proof fn lemma_pow256_8()
    ensures
        pow256(0) == 1,
        pow256(1) == 0x100,
        pow256(2) == 0x1_0000,
        pow256(4) == 0x1_0000_0000,
        pow256(8) == 0x1_0000_0000_0000_0000,
{
    reveal_with_fuel(pow256, 9);
}

/// Writing a number and reading it back gives the number, if it fits.
pub proof fn lemma_le_round_trip(x: nat, n: nat)
    requires
        x < pow256(n),
    ensures
        le_bytes(x, n).len() == n,
        le_value(le_bytes(x, n)) == x,
    decreases n,
{
    if n > 0 {
        lemma_le_round_trip(x / 256, (n - 1) as nat);
        let s = le_bytes(x, n);
        assert(s.drop_first() =~= le_bytes(x / 256, (n - 1) as nat));
    }
}

pub proof fn lemma_le_len(x: nat, n: nat)
    ensures
        le_bytes(x, n).len() == n,
    decreases n,
{
    if n > 0 {
        lemma_le_len(x / 256, (n - 1) as nat);
    }
}

/// The byte that has `i` bytes of a number behind it.
pub proof fn lemma_be_index(x: nat, n: nat, i: nat)
    requires
        i < n,
    ensures
        be_bytes(x, n).len() == n,
        be_bytes(x, n)[n - 1 - i] == x / pow256(i) % 256,
    decreases n,
{
    lemma_be_bytes(x, n);
    if i > 0 {
        lemma_be_index(x / 256, (n - 1) as nat, (i - 1) as nat);
        lemma_pow_monotone((i - 1) as nat, i);
        vstd::arithmetic::div_mod::lemma_div_denominator(x as int, 256, pow256((i - 1) as nat) as int);
        assert(be_bytes(x, n)[n - 1 - i] == be_bytes(x / 256, (n - 1) as nat)[n - 1 - i]);
    } else {
        let one = pow256(0);
        assert(x / one == x) by (nonlinear_arith)
            requires
                one == 1,
        ;
    }
}

/// Reading bytes and writing the number gives the bytes.
pub proof fn lemma_le_value(s: Seq<u8>)
    ensures
        le_value(s) < pow256(s.len()),
        le_bytes(le_value(s), s.len()) == s,
    decreases s.len(),
{
    if s.len() > 0 {
        let t = s.drop_first();
        lemma_le_value(t);
        let v = le_value(s);
        assert(v == s[0] as nat + 256 * le_value(t));
        assert(v / 256 == le_value(t) && v % 256 == s[0] as nat);
        assert(s =~= seq![s[0]] + t);
    } else {
        assert(le_bytes(0, 0) =~= s);
    }
}

/// Appends the lowest `n` bytes of `x`, least significant first.
pub fn put_le(out: &mut Vec<u8>, x: u64, n: usize)
    ensures
        final(out)@ == old(out)@ + le_bytes(x as nat, n as nat),
{
    let mut v: u64 = x;
    let mut i: usize = 0;
    while i < n
        invariant
            i <= n,
            old(out)@ + le_bytes(x as nat, n as nat) == out@ + le_bytes(v as nat, (n - i) as nat),
        decreases n - i,
    {
        let ghost before = out@;
        let ghost rest = (n - i - 1) as nat;
        out.push((v % 256) as u8);
        proof {
            assert(le_bytes(v as nat, (n - i) as nat) =~= seq![(v % 256) as u8] + le_bytes((v / 256) as nat, rest));
            assert(out@ + le_bytes((v / 256) as nat, rest) =~= before + le_bytes(v as nat, (n - i) as nat));
        }
        v = v / 256;
        i += 1;
    }
    assert(out@ + le_bytes(v as nat, 0) =~= out@);
}

/// The number whose bytes, least significant first, are `s`.
pub fn read_le(s: &[u8]) -> (x: u64)
    requires
        s@.len() <= 8,
    ensures
        x == le_value(s@),
{
    let mut i: usize = s.len();
    let mut x: u64 = 0;
    assert(s@.skip(i as int) =~= Seq::<u8>::empty());
    while i > 0
        invariant
            i <= s@.len() <= 8,
            x == le_value(s@.skip(i as int)),
        decreases i,
    {
        proof {
            let t = s@.skip(i - 1);
            assert(t.drop_first() =~= s@.skip(i as int));
            lemma_le_value(t);
            lemma_pow_monotone(t.len(), 8);
            lemma_pow256_8();
        }
        i -= 1;
        x = s[i] as u64 + 256 * x;
    }
    assert(s@.skip(0) =~= s@);
    x
}

pub proof fn lemma_pow_monotone(a: nat, b: nat)
    requires
        a <= b,
    ensures
        pow256(a) <= pow256(b),
        pow256(a) >= 1,
    decreases b,
{
    if a < b {
        lemma_pow_monotone(a, (b - 1) as nat);
    } else if a > 0 {
        lemma_pow_monotone((a - 1) as nat, (a - 1) as nat);
    }
}

/// The number in the `n` bytes at `at`, most significant first.
pub fn read_be(s: &[u8], at: usize, n: usize) -> (x: u128)
    requires
        n <= 16,
        at + n <= s@.len(),
    ensures
        x == be_value(s@.subrange(at as int, at + n)),
{
    let size: usize = s.len();
    let mut i: usize = 0;
    let mut x: u128 = 0;
    assert(s@.subrange(at as int, at as int) =~= Seq::<u8>::empty());
    while i < n
        invariant
            i <= n <= 16,
            at + n <= s@.len() == size,
            x == be_value(s@.subrange(at as int, at + i)),
        decreases n - i,
    {
        proof {
            let t = s@.subrange(at as int, at + i + 1);
            assert(t.drop_last() =~= s@.subrange(at as int, at + i));
            lemma_be_value(t);
            lemma_pow_monotone(t.len(), 16);
            lemma_pow256_16();
        }
        x = 256 * x + s[at + i] as u128;
        i += 1;
    }
    x
}

pub proof fn lemma_pow256_16()
    ensures
        pow256(16) == 0x1_0000_0000_0000_0000_0000_0000_0000_0000,
{
    reveal_with_fuel(pow256, 17);
}

/// Appends the lowest `n` bytes of `x`, most significant first.
pub fn put_be(out: &mut Vec<u8>, x: u128, n: usize)
    ensures
        final(out)@ == old(out)@ + be_bytes(x as nat, n as nat),
    decreases n,
{
    if n == 0 {
        assert(out@ + be_bytes(x as nat, 0) =~= out@);
    } else {
        put_be(out, x / 256, n - 1);
        out.push((x % 256) as u8);
        assert(out@ =~= old(out)@ + be_bytes(x as nat, n as nat));
    }
}

/// Appends bytes.
pub fn put_bytes(out: &mut Vec<u8>, data: &[u8])
    ensures
        final(out)@ == old(out)@ + data@,
{
    let mut i: usize = 0;
    while i < data.len()
        invariant
            i <= data@.len(),
            out@ == old(out)@ + data@.take(i as int),
        decreases data@.len() - i,
    {
        assert(data@.take(i + 1) =~= data@.take(i as int).push(data@[i as int]));
        out.push(data[i]);
        i += 1;
        assert(out@ =~= old(out)@ + data@.take(i as int));
    }
    assert(data@.take(i as int) =~= data@);
}

/// Two byte strings are equal.
pub fn same_bytes(a: &[u8], b: &[u8]) -> (same: bool)
    ensures
        same == (a@ == b@),
{
    if a.len() != b.len() {
        return false;
    }
    let mut i: usize = 0;
    while i < a.len()
        invariant
            i <= a@.len() == b@.len(),
            forall|k: int| 0 <= k < i ==> a@[k] == b@[k],
        decreases a@.len() - i,
    {
        if a[i] != b[i] {
            return false;
        }
        i += 1;
    }
    assert(a@ =~= b@);
    true
}

/// The upper half of the seventh of eight bytes in their number, least significant first.
pub proof fn lemma_seventh_byte(s: Seq<u8>)
    requires
        s.len() == 8,
    ensures
        le_value(s) / 0x10_0000_0000_0000 % 16 == s[6] / 16,
{
    let (low, rest) = (le_value(s.take(6)), s.skip(6));
    lemma_le_split(s, 6);
    lemma_le_value(s.take(6));
    assert(pow256(6) == 0x1_0000_0000_0000) by {
        reveal_with_fuel(pow256, 7);
    }
    assert(rest.drop_first().drop_first() =~= Seq::<u8>::empty());
    assert(le_value(rest.drop_first()) == s[7] as nat + 256 * le_value(
        rest.drop_first().drop_first(),
    ));
    assert(le_value(rest) == s[6] as nat + 256 * s[7] as nat);
    let high = le_value(rest);
    assert(le_value(s) == low + 0x1_0000_0000_0000 * high);
    assert(le_value(s) / 0x10_0000_0000_0000 == high / 16);
    assert(high / 16 % 16 == s[6] as nat / 16);
}

/// The number of bytes is that of their beginning and that of the rest.
proof fn lemma_le_split(s: Seq<u8>, n: nat)
    requires
        n <= s.len(),
    ensures
        le_value(s) == le_value(s.take(n as int)) + pow256(n) * le_value(s.skip(n as int)),
    decreases n,
{
    if n == 0 {
        assert(s.skip(0) =~= s);
        assert(s.take(0).len() == 0);
        assert(le_value(s.take(0)) == 0);
        assert(pow256(0) == 1);
        assert(1 * le_value(s.skip(0)) == le_value(s));
    } else {
        let t = s.drop_first();
        let m = (n - 1) as nat;
        lemma_le_split(t, m);
        assert(s.take(n as int).drop_first() =~= t.take(m as int));
        assert(s.skip(n as int) =~= t.skip(m as int));
        let v = le_value(s.skip(n as int));
        let (a, p) = (le_value(t.take(m as int)), pow256(m));
        assert(256 * (a + p * v) == 256 * a + (256 * p) * v) by (nonlinear_arith);
        assert(s.take(n as int)[0] == s[0]);
        assert(pow256(n) == 256 * p);
        assert(le_value(s.take(n as int)) == s[0] as nat + 256 * a);
        assert(le_value(s) == s[0] as nat + 256 * le_value(t));
        assert(le_value(t) == a + p * v);
        assert(le_value(s) == le_value(s.take(n as int)) + pow256(n) * v);
    }
}

} // verus!
