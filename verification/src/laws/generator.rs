//! What the first long of a seed is.
use vstd::arithmetic::div_mod::*;
use vstd::prelude::*;

use crate::java;

verus! {

/// The first long of a seed is made of two halves. The states behind them follow, one after the
/// other, from the seed combined with the multiplier; a half is the upper 32 of the 48 bits of its
/// state, read as a signed number; the long is the first half times 2^32 plus the second. It is
/// defined unless that sum leaves the signed 64-bit numbers, which happens only for the lowest
/// first half together with a negative second half.
pub proof fn law_long_is_made_of_two_halves(seed: u64) -> (r: (int, int, int, int))
    ensures
        ({
            let (first, second, high, low) = r;
            let start = (seed ^ 25214903917u64) as int;
            &&& 0 <= first < 281474976710656
            &&& (start * 25214903917 + 11 - first) % 281474976710656 == 0
            &&& 0 <= second < 281474976710656
            &&& (first * 25214903917 + 11 - second) % 281474976710656 == 0
            &&& -2147483648 <= high <= 2147483647
            &&& (first / 65536 - high) % 4294967296 == 0
            &&& -2147483648 <= low <= 2147483647
            &&& (second / 65536 - low) % 4294967296 == 0
            &&& (high * 4294967296 + low - java::long_of_seed(seed)) % 18446744073709551616 == 0
            &&& java::long_fits(seed) <==> -9223372036854775808 <= high * 4294967296 + low
                <= 9223372036854775807
            &&& java::long_fits(seed) <==> !(high == -2147483648 && low < 0)
            &&& java::halves_add_up(seed) <==> !(high == -2147483648 && low < 0)
        }),
{
    let start = (seed ^ 25214903917u64) as int;
    let first = (start * 25214903917 + 11) % 281474976710656;
    let second = (first * 25214903917 + 11) % 281474976710656;
    let high = if first / 65536 >= 2147483648 {
        first / 65536 - 4294967296
    } else {
        first / 65536
    };
    let low = if second / 65536 >= 2147483648 {
        second / 65536 - 4294967296
    } else {
        second / 65536
    };
    lemma_remainder(start * 25214903917 + 11, 281474976710656);
    lemma_remainder(first * 25214903917 + 11, 281474976710656);
    lemma_remainder(high * 4294967296 + low, 18446744073709551616);
    assert(java::next_state(start) == first);
    assert(java::next_state(first) == second);
    assert(java::state_word(first) == high && java::state_word(second) == low);
    (first, second, high, low)
}

proof fn lemma_remainder(x: int, m: int)
    requires
        m > 0,
    ensures
        (x - x % m) % m == 0,
        0 <= x % m < m,
{
    lemma_fundamental_div_mod(x, m);
    lemma_mod_multiples_basic(x / m, m);
    assert(m * (x / m) == (x / m) * m) by (nonlinear_arith);
}

/// A seed leads to a number exactly if it has 48 bits and its first long and the number differ by a
/// multiple of 2^48. The internal state that is combined with the multiplier leads there too.
pub proof fn law_seeds_lead_to_the_low_bits_of_their_long(t: u64, value: u64)
    ensures
        java::seed_leads_to(t, value) <==> t < 281474976710656 && (java::long_of_seed(t) - value)
            % 281474976710656 == 0,
        java::leads_to(t ^ 25214903917u64, value) <==> java::seed_leads_to(t, value),
{
    let s = java::scrambled(t);
    let m = 281474976710656int;
    let (x, y) = (java::long_of_seed(t) as int, value as int);
    java::lemma_scramble(t);
    java::lemma_low48_of_64(java::long_of_state(s as int));
    lemma_sub_mod_noop(x, y, m);
    if x % m == y % m {
        assert((x % m - y % m) % m == 0);
    } else {
        let d = x % m - y % m;
        if d >= 0 {
            lemma_small_mod(d as nat, m as nat);
        } else {
            lemma_mod_add_multiples_vanish(d, m);
            lemma_small_mod((d + m) as nat, m as nat);
        }
    }
}

/// The seeds that lead to a number are listed in the order of their internal states.
pub proof fn law_seeds_are_listed_as_their_states(value: u64, i: int)
    ensures
        java::seeds_before(value).len() == java::states_before(value).len(),
        0 <= i < java::states_before(value).len() ==> java::seeds_before(value)[i]
            == java::states_before(value)[i] ^ 25214903917u64,
{
}

} // verus!
