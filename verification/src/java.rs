//! The random number generator behind bedrock placement: `java.util.Random`, forwards through
//! the crate `java_random` and backwards through the crate `next_long_reverser`.
use vstd::arithmetic::div_mod::*;
use vstd::prelude::*;

use crate::arith;

verus! {

/// The mask of the generator's 48 state bits.
pub const MASK48: u64 = 0xFFFF_FFFF_FFFF;

/// The number of generator states, 2^48.
pub open spec fn states() -> int {
    0x1_0000_0000_0000
}

/// The multiplier of the generator.
pub open spec fn multiplier() -> int {
    0x5_DEEC_E66D
}

/// The state after `s`.
pub open spec fn next_state(s: int) -> int {
    (s * multiplier() + 11) % states()
}

/// The 32-bit number that a state stands for: its upper 32 bits, read as a signed number.
pub open spec fn state_word(s: int) -> int {
    let w = s / 0x1_0000;
    if w >= 0x8000_0000 {
        w - 0x1_0000_0000
    } else {
        w
    }
}

/// The long drawn from the internal state `s`, before it is cut to 64 bits.
pub open spec fn long_of_state(s: int) -> int {
    state_word(next_state(s)) * 0x1_0000_0000 + state_word(next_state(next_state(s)))
}

/// The internal state that a seed starts the generator in.
pub open spec fn scrambled(seed: u64) -> u64 {
    seed ^ 0x5_DEEC_E66Du64
}

/// Whether the first long of a seed can be formed without leaving the range of a signed
/// 64-bit number. It can but for the lowest first half together with a negative second half.
pub open spec fn long_fits(seed: u64) -> bool {
    long_of_state(scrambled(seed) as int) >= i64::MIN
}

/// Whether the two halves of the first long of a seed can be added: they cannot if the first half
/// is the lowest 32-bit number and the second half is negative.
pub open spec fn halves_add_up(seed: u64) -> bool {
    let first = next_state(scrambled(seed) as int);
    let second = next_state(first);
    !(first / 0x1_0000 == 0x8000_0000 && second / 0x1_0000 >= 0x8000_0000)
}

/// The first long of a seed as an unsigned number.
pub open spec fn long_of_seed(seed: u64) -> u64 {
    (long_of_state(scrambled(seed) as int) % 0x1_0000_0000_0000_0000) as u64
}

/// Whether `s` is an internal state whose long has the low 48 bits of `value`.
pub open spec fn leads_to(s: u64, value: u64) -> bool {
    s < states() && long_of_state(s as int) % states() == value as int % states()
}

/// The internal states whose long has the low 48 bits of `value`, in the order in which
/// `next_long_reverser::get_next_long` lists them.
pub uninterp spec fn states_before(value: u64) -> Seq<u64>;

/// The seeds whose first long has the low 48 bits of `value`.
pub open spec fn seeds_before(value: u64) -> Seq<u64> {
    states_before(value).map_values(|s: u64| scrambled(s))
}

/// The constant `java_random::JAVA_LCG.multiplier`, whose value is stated as in that crate's
/// source.
#[verifier::external_body]
pub(crate) fn lcg_multiplier() -> (m: u64)
    ensures
        m == multiplier(),
{
    java_random::JAVA_LCG.multiplier
}

/// Calls `java_random::Random::with_seed` and `next_long` on the generator that it returns: the
/// seed is combined with the multiplier by exclusive or, and the upper 32 bits of the two
/// following states, read as signed numbers, are the halves of the long. The sum of the halves
/// is an ordinary addition, which must not overflow.
#[verifier::external_body]
fn java_next_long(seed: u64) -> (r: i64)
    requires
        long_fits(seed),
    ensures
        r == long_of_state(scrambled(seed) as int),
{
    java_random::Random::with_seed(seed).next_long()
}

/// Calls `next_long_reverser::get_next_long`, the preimage of `nextLong`: its result is a
/// function of the low 48 bits of the argument, and holds each internal state whose long has
/// these low 48 bits, once, and nothing else.
///
/// The function looks for a point of a lattice of determinant 2^32, whose coordinates are the two
/// states behind the halves of the long, in a box of 2^16 times 2^16. The box spans fewer than two
/// steps of either basis coordinate, so that the two values that are tried for each suffice. The
/// points at the corners of the box that the rounding of the first value can leave out are never
/// in the lattice: their low 16 bits do not follow each other in the generator.
#[verifier::external_body]
fn get_states_before(value: u64) -> (r: Vec<u64>)
    ensures
        r@ == states_before(value),
        r@.no_duplicates(),
        forall|s: u64| #[trigger] r@.contains(s) == leads_to(s, value),
{
    next_long_reverser::get_next_long(value)
}

/// Whether the first long of the seed `t`, a number of 48 bits, has the low 48 bits of `value`.
pub open spec fn seed_leads_to(t: u64, value: u64) -> bool {
    t < states() && long_of_seed(t) as int % states() == value as int % states()
}

/// Masking with 48 ones is the remainder by 2^48.
pub proof fn lemma_mask48(x: u64)
    ensures
        x & MASK48 == x as int % states(),
        x & MASK48 <= MASK48,
{
    assert(x & 0xFFFF_FFFF_FFFFu64 == x % 0x1_0000_0000_0000u64) by (bit_vector);
}

/// Cutting to 64 bits keeps the low 48 bits.
pub proof fn lemma_low48_of_64(x: int)
    ensures
        (x % 0x1_0000_0000_0000_0000) % states() == x % states(),
{
    lemma_mod_mod(x, states(), 0x1_0000);
}

/// Applying the exclusive or with the multiplier twice gives the seed back, and a number below
/// 2^48 stays below it.
pub proof fn lemma_scramble(s: u64)
    ensures
        scrambled(scrambled(s)) == s,
        s < states() <==> scrambled(s) < states(),
{
    assert((s ^ 0x5_DEEC_E66Du64) ^ 0x5_DEEC_E66Du64 == s) by (bit_vector);
    assert(s < 0x1_0000_0000_0000u64 <==> (s ^ 0x5_DEEC_E66Du64) < 0x1_0000_0000_0000u64)
        by (bit_vector);
}

/// One step of the generator.
fn advance(s: u64) -> (r: u64)
    ensures
        r == next_state(s as int),
{
    let m: u64 = lcg_multiplier();
    let product: u64 = s.wrapping_mul(m);
    let sum: u64 = product.wrapping_add(11);
    proof {
        let exact = s * multiplier();
        let cut = exact % 0x1_0000_0000_0000_0000;
        assert(product == cut);
        assert(sum as int == (cut + 11) % 0x1_0000_0000_0000_0000) by {
            lemma_small_mod(sum as nat, 0x1_0000_0000_0000_0000);
            lemma_mod_sub_multiples_vanish(cut + 11, 0x1_0000_0000_0000_0000);
        }
        lemma_add_mod_noop(exact, 11, 0x1_0000_0000_0000_0000);
        lemma_add_mod_noop(cut, 11, 0x1_0000_0000_0000_0000);
        lemma_mod_twice(exact, 0x1_0000_0000_0000_0000);
        lemma_low48_of_64(exact + 11);
        lemma_mask48(sum);
    }
    sum & MASK48
}

/// Whether `next_long` is defined for a seed.
pub fn next_long_fits(seed: u64) -> (b: bool)
    ensures
        b == long_fits(seed),
        b == halves_add_up(seed),
{
    let s: u64 = seed ^ lcg_multiplier();
    let first: u64 = advance(s);
    let second: u64 = advance(first);
    !(first / 0x1_0000 == 0x8000_0000 && second / 0x1_0000 >= 0x8000_0000)
}

/// The first long that `java.util.Random` draws when it is started from `seed`.
pub fn next_long(seed: u64) -> (r: u64)
    requires
        long_fits(seed),
    ensures
        r == long_of_seed(seed),
{
    let value: i64 = java_next_long(seed);
    proof {
        arith::lemma_cast_u64(value);
    }
    value as u64
}

/// The seeds from which the generator draws a long with the low 48 bits of `seed`: each such
/// seed of 48 bits once, and no other.
pub fn reverse_next_long(seed: u64) -> (r: Vec<u64>)
    ensures
        r@ == seeds_before(seed),
        r@.no_duplicates(),
        forall|t: u64| #[trigger] r@.contains(t) == seed_leads_to(t, seed),
{
    let found: Vec<u64> = get_states_before(seed);
    let m: u64 = lcg_multiplier();
    let mut r: Vec<u64> = Vec::new();
    let mut i: usize = 0;
    while i < found.len()
        invariant
            i <= found@.len(),
            m == multiplier(),
            r@ == found@.take(i as int).map_values(|s: u64| scrambled(s)),
        decreases found.len() - i,
    {
        r.push(found[i] ^ m);
        proof {
            assert(found@.take(i + 1) == found@.take(i as int).push(found@[i as int]));
        }
        i += 1;
    }
    proof {
        assert(found@.take(i as int) == found@);
        assert forall|j: int, k: int| 0 <= j < k < r@.len() implies r@[j] != r@[k] by {
            lemma_scramble(found@[j]);
            lemma_scramble(found@[k]);
        }
        assert forall|t: u64| #[trigger] r@.contains(t) == seed_leads_to(t, seed) by {
            let s = scrambled(t);
            lemma_scramble(t);
            lemma_low48_of_64(long_of_state(s as int));
            assert(found@.contains(s) == leads_to(s, seed));
            if found@.contains(s) {
                let j = found@.index_of(s);
                assert(r@[j] == t);
            }
            if r@.contains(t) {
                let j = r@.index_of(t);
                lemma_scramble(found@[j]);
                assert(found@[j] == s);
            }
        }
    }
    r
}

} // verus!
