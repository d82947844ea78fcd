//! Sizes of subnets.

use vstd::prelude::*;

verus! {

/// 2 to the power of `n`.
pub open spec fn two_to(n: nat) -> nat
    decreases n,
{
    if n == 0 {
        1
    } else {
        2 * two_to((n - 1) as nat)
    }
}

/// How many addresses a subnet has.
pub open spec fn subnet_size(prefix: u8) -> nat {
    two_to((32 - prefix) as nat)
}

/// The size of a subnet.
pub fn size_of_subnet(prefix: u8) -> (size: u64)
    requires
        prefix <= 32,
    ensures
        size == subnet_size(prefix),
        1 <= size <= 0x1_0000_0000,
{
    let bits: u8 = 32 - prefix;
    let mut size: u64 = 1;
    let mut i: u8 = 0;
    proof {
        lemma_two_to();
    }
    while i < bits
        invariant
            i <= bits <= 32,
            size == two_to(i as nat),
        decreases bits - i,
    {
        proof {
            lemma_two_to();
            lemma_two_to_monotone(i as nat, 31);
        }
        size = size * 2;
        i += 1;
    }
    proof {
        lemma_two_to_monotone(bits as nat, 32);
    }
    size
}

pub proof fn lemma_two_to()
    ensures
        two_to(0) == 1,
        two_to(2) == 4,
        two_to(8) == 256,
        two_to(9) == 512,
        two_to(24) == 0x100_0000,
        two_to(31) == 0x8000_0000,
        two_to(32) == 0x1_0000_0000,
{
    reveal_with_fuel(two_to, 33);
}

pub proof fn lemma_two_to_monotone(a: nat, b: nat)
    requires
        a <= b,
    ensures
        1 <= two_to(a) <= two_to(b),
        two_to(b) % two_to(a) == 0,
    decreases b,
{
    if a < b {
        lemma_two_to_monotone(a, (b - 1) as nat);
        let (x, y) = (two_to((b - 1) as nat), two_to(a));
        vstd::arithmetic::div_mod::lemma_mul_mod_noop_right(2, x as int, y as int);
        vstd::arithmetic::div_mod::lemma_small_mod(0, y);
    } else {
        if a > 0 {
            lemma_two_to_monotone((a - 1) as nat, (a - 1) as nat);
        }
        let y = two_to(a);
        assert(y % y == 0) by (nonlinear_arith)
            requires
                y >= 1,
        ;
    }
}

} // verus!
