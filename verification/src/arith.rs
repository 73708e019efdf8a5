//! Facts about division, remainders and powers of two that several modules share.
use vstd::arithmetic::div_mod::*;
use vstd::arithmetic::power2::*;
use vstd::prelude::*;

verus! {

/// A common factor of dividend and divisor leaves the quotient alone and scales the remainder.
pub proof fn lemma_div_mod_scale(n: int, m: int, c: int)
    requires
        m > 0,
        c > 0,
    ensures
        (n * c) / (m * c) == n / m,
        (n * c) % (m * c) == (n % m) * c,
{
    let q = n / m;
    let r = n % m;
    lemma_fundamental_div_mod(n, m);
    assert(m * c > 0) by (nonlinear_arith)
        requires
            m > 0,
            c > 0,
    ;
    assert(n * c == q * (m * c) + r * c) by (nonlinear_arith)
        requires
            n == m * q + r,
    ;
    assert(0 <= r * c < m * c) by (nonlinear_arith)
        requires
            0 <= r < m,
            c > 0,
    ;
    lemma_fundamental_div_mod_converse(n * c, m * c, q, r * c);
}

/// Division in two stages is division by the product, and the remainders combine.
pub proof fn lemma_div_mod_stages(n: int, d: int, c: int)
    requires
        n >= 0,
        d > 0,
        c > 0,
    ensures
        d * c > 0,
        (n / d) / c == n / (d * c),
        n % (d * c) == ((n / d) % c) * d + n % d,
{
    assert(d * c > 0) by (nonlinear_arith)
        requires
            d > 0,
            c > 0,
    ;
    lemma_div_denominator(n, d, c);
    lemma_mod_breakdown(n, d, c);
    assert(d * ((n / d) % c) == ((n / d) % c) * d) by (nonlinear_arith);
}

/// Powers of two grow with their exponent.
pub proof fn lemma_pow2_le(a: nat, b: nat)
    requires
        a <= b,
    ensures
        pow2(a) <= pow2(b),
{
    if a < b {
        lemma_pow2_strictly_increases(a, b);
    }
}

/// A signed number read as an unsigned one.
pub proof fn lemma_cast_u64(v: i64)
    ensures
        v as u64 as int == v as int % 0x1_0000_0000_0000_0000,
{
    let m = 0x1_0000_0000_0000_0000int;
    assert(v as u64 == if v >= 0 {
        v as int
    } else {
        v + 0x1_0000_0000_0000_0000
    }) by (bit_vector);
    if v >= 0 {
        lemma_small_mod(v as nat, m as nat);
    } else {
        lemma_mod_add_multiples_vanish(v as int, m);
        lemma_small_mod((v + m) as nat, m as nat);
    }
}

/// The power of two as a machine word.
pub fn pow2_u128(k: u32) -> (p: u128)
    requires
        k < 128,
    ensures
        p == pow2(k as nat),
{
    proof {
        lemma2_to64();
    }
    let mut p: u128 = 1;
    let mut i: u32 = 0;
    while i < k
        invariant
            i <= k < 128,
            p == pow2(i as nat),
        decreases k - i,
    {
        proof {
            lemma_pow2_unfold((i + 1) as nat);
            lemma_pow2_le((i + 1) as nat, 127);
            assert(pow2(127) == pow2(63) * pow2(64)) by {
                lemma_pow2_adds(63, 64);
            }
            lemma2_to64_rest();
        }
        p = p * 2;
        i = i + 1;
    }
    p
}

/// The number of binary digits of `x`, none for zero.
pub fn bit_length(x: u128) -> (b: u32)
    ensures
        b <= 128,
        x < pow2(b as nat),
        x > 0 ==> b > 0 && x >= pow2((b - 1) as nat),
        x == 0 ==> b == 0,
{
    proof {
        lemma2_to64();
        lemma2_to64_rest();
        lemma_pow2_adds(64, 64);
    }
    let mut b: u32 = 0;
    let mut rest: u128 = x;
    proof {
        assert(x as int / 1 == x);
    }
    while rest > 0
        invariant
            b <= 128,
            rest == x as int / pow2(b as nat) as int,
            pow2(b as nat) > 0,
            b > 0 ==> x >= pow2((b - 1) as nat),
            b == 0 ==> rest == x,
            pow2(128) == u128::MAX + 1,
        decreases rest,
    {
        proof {
            lemma_pow2_unfold((b + 1) as nat);
            lemma_pow2_pos((b + 1) as nat);
            lemma_fundamental_div_mod(x as int, pow2(b as nat) as int);
            assert(x >= pow2(b as nat)) by (nonlinear_arith)
                requires
                    rest >= 1,
                    x == pow2(b as nat) * rest + (x as int) % (pow2(b as nat) as int),
                    (x as int) % (pow2(b as nat) as int) >= 0,
                    pow2(b as nat) > 0,
            ;
            if b == 128 {
                assert(false);
            }
            lemma_div_denominator(x as int, pow2(b as nat) as int, 2);
        }
        rest = rest / 2;
        b = b + 1;
    }
    proof {
        lemma_fundamental_div_mod(x as int, pow2(b as nat) as int);
        assert(pow2(b as nat) as int * 0 == 0);
        if b > 0 {
            lemma_pow2_pos((b - 1) as nat);
        }
    }
    b
}

} // verus!
