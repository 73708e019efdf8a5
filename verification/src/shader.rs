//! The arithmetic of the compute shader, word by word.
//!
//! The graphics processor has no 64-bit integers. The shader adds, multiplies and compares pairs
//! of 32-bit words. The functions here are a transcription of those of the shader, proved to agree
//! with the arithmetic on whole numbers, together with the counters of its results; `run_pass` is a
//! whole pass with its invocations one after the other. What the processor runs is the text of the
//! shader in `app/gpu.rs`; nothing compares that text with the functions here.
use vstd::arithmetic::div_mod::*;
use vstd::prelude::*;

use crate::block_data;
use crate::block_data::CheckObject;
use crate::cross;
use crate::gpu;
use crate::gpu::u64_to_u32x2;
use crate::gpu::StatsReadback;
use crate::gpu_search::GpuRange;
use crate::java;
use crate::plan;

verus! {

/// The low word of the generator's multiplier.
pub const MULT_LO: u32 = 3740067437;

/// The high word of the generator's multiplier.
pub const MULT_HI: u32 = 5;

/// A number of two words: `x` is the low one, `y` the high one.
#[derive(Clone, Copy, Debug, PartialEq, Eq, Structural)]
pub struct Vec2 {
    pub x: u32,
    pub y: u32,
}

impl Vec2 {
    /// The number.
    pub open spec fn value(self) -> int {
        gpu::joined(self.x, self.y)
    }

    /// The words of a number.
    pub fn of(val: u64) -> (r: Self)
        ensures
            r.value() == val,
    {
        let words: [u32; 2] = u64_to_u32x2(val);
        Vec2 { x: words[0], y: words[1] }
    }
}

/// The number as a machine word.
pub open spec fn whole(a: Vec2) -> u64 {
    a.value() as u64
}

proof fn lemma_whole(a: Vec2)
    ensures
        0 <= a.value() <= u64::MAX,
        whole(a) == a.value(),
        whole(a) == (a.x as u64) | ((a.y as u64) << 32),
{
    let (x, y) = (a.x, a.y);
    assert((x as u64) | ((y as u64) << 32) == x + y * 0x1_0000_0000u64) by (bit_vector);
}

/// Whether an addition of words carries.
fn carry_of(sum: u32, summand: u32) -> (r: u32)
    ensures
        r == (if sum < summand {
            1u32
        } else {
            0u32
        }),
{
    if sum < summand {
        1
    } else {
        0
    }
}

/// The sum, cut to 64 bits.
pub fn add64(a: Vec2, b: Vec2) -> (r: Vec2)
    ensures
        r.value() == (a.value() + b.value()) % 0x1_0000_0000_0000_0000,
{
    let lo: u32 = a.x.wrapping_add(b.x);
    let carry: u32 = carry_of(lo, a.x);
    let hi: u32 = a.y.wrapping_add(b.y).wrapping_add(carry);
    let r: Vec2 = Vec2 { x: lo, y: hi };
    proof {
        let sum = a.value() + b.value();
        assert(lo + carry * 0x1_0000_0000 == a.x + b.x);
        assert(r.value() == sum || r.value() == sum - 0x1_0000_0000_0000_0000);
        if r.value() == sum {
            lemma_small_mod(sum as nat, 0x1_0000_0000_0000_0000);
        } else {
            lemma_mod_sub_multiples_vanish(sum, 0x1_0000_0000_0000_0000);
            lemma_small_mod(r.value() as nat, 0x1_0000_0000_0000_0000);
        }
    }
    r
}

/// The product of two words.
pub fn mul32_wide(a: u32, b: u32) -> (r: Vec2)
    ensures
        r.value() == a * b,
{
    let a_lo: u32 = a & 0xFFFF;
    let a_hi: u32 = a >> 16;
    let b_lo: u32 = b & 0xFFFF;
    let b_hi: u32 = b >> 16;
    proof {
        assert(a & 0xFFFF == a % 0x1_0000 && a >> 16 == a / 0x1_0000) by (bit_vector);
        assert(b & 0xFFFF == b % 0x1_0000 && b >> 16 == b / 0x1_0000) by (bit_vector);
        lemma_half_product(a_lo, b_lo);
        lemma_half_product(a_lo, b_hi);
        lemma_half_product(a_hi, b_lo);
        lemma_half_product(a_hi, b_hi);
    }
    let p0: u32 = a_lo * b_lo;
    let p1: u32 = a_lo * b_hi;
    let p2: u32 = a_hi * b_lo;
    let p3: u32 = a_hi * b_hi;
    let sum_mid: u32 = p1.wrapping_add(p2);
    let mid_overflow: u32 = carry_of(sum_mid, p1);
    let lo_part_mid: u32 = sum_mid << 16;
    let hi_part_mid: u32 = sum_mid >> 16;
    let final_lo: u32 = p0.wrapping_add(lo_part_mid);
    let carry: u32 = carry_of(final_lo, p0);
    let high_overflow: u32 = mid_overflow << 16;
    proof {
        assert(sum_mid << 16 == (sum_mid % 0x1_0000) * 0x1_0000 && sum_mid >> 16 == sum_mid
            / 0x1_0000) by (bit_vector);
        assert(mid_overflow <= 1 ==> mid_overflow << 16 == mid_overflow * 0x1_0000) by (bit_vector);
        assert(a * b == p3 * 0x1_0000_0000 + (p1 + p2) * 0x1_0000 + p0) by (nonlinear_arith)
            requires
                a == a_hi * 0x1_0000 + a_lo,
                b == b_hi * 0x1_0000 + b_lo,
                p0 == a_lo * b_lo,
                p1 == a_lo * b_hi,
                p2 == a_hi * b_lo,
                p3 == a_hi * b_hi,
        ;
        assert(a * b <= 0xFFFF_FFFF * 0xFFFF_FFFF) by (nonlinear_arith)
            requires
                0 <= a <= 0xFFFF_FFFF,
                0 <= b <= 0xFFFF_FFFF,
        ;
        let exact = p3 + hi_part_mid + high_overflow + carry;
        assert(a * b == exact * 0x1_0000_0000 + final_lo);
    }
    let final_hi: u32 = p3 + hi_part_mid + high_overflow + carry;
    Vec2 { x: final_lo, y: final_hi }
}

proof fn lemma_half_product(a: u32, b: u32)
    requires
        a < 0x1_0000,
        b < 0x1_0000,
    ensures
        a * b <= 0xFFFE_0001,
{
    assert(a * b <= 0xFFFF * 0xFFFF) by (nonlinear_arith)
        requires
            0 <= a <= 0xFFFF,
            0 <= b <= 0xFFFF,
    ;
}

/// The product with the multiplier of the generator, cut to 64 bits.
pub fn mul_lcg(a: Vec2) -> (r: Vec2)
    ensures
        r.value() == (a.value() * java::multiplier()) % 0x1_0000_0000_0000_0000,
{
    let t1: u32 = a.y.wrapping_mul(MULT_LO);
    let t2: u32 = a.x.wrapping_mul(MULT_HI);
    let high_part: u32 = t1.wrapping_add(t2);
    let full_prod: Vec2 = mul32_wide(a.x, MULT_LO);
    let r: Vec2 = Vec2 { x: full_prod.x, y: full_prod.y.wrapping_add(high_part) };
    proof {
        let w = 0x1_0000_0000int;
        let m = 0x1_0000_0000_0000_0000int;
        let exact = a.value() * java::multiplier();
        // How often a word overflowed on the way.
        let q1 = (a.y * MULT_LO) / w;
        let q2 = (a.x * MULT_HI) / w;
        let q3 = (t1 + t2 - high_part) / w;
        let q4 = (full_prod.y + high_part - r.y) / w;
        assert(a.y * MULT_LO == q1 * w + t1);
        assert(a.x * MULT_HI == q2 * w + t2);
        assert(t1 + t2 == q3 * w + high_part);
        assert(full_prod.y + high_part == q4 * w + r.y);
        assert(exact == r.value() + (a.y * MULT_HI + q1 + q2 + q3 + q4) * m);
        lemma_fundamental_div_mod_converse(
            exact,
            m,
            a.y * MULT_HI + q1 + q2 + q3 + q4,
            r.value(),
        );
    }
    r
}

/// The bitwise exclusive or.
pub fn xor64(a: Vec2, b: Vec2) -> (r: Vec2)
    ensures
        whole(r) == whole(a) ^ whole(b),
{
    let r: Vec2 = Vec2 { x: a.x ^ b.x, y: a.y ^ b.y };
    proof {
        lemma_whole(a);
        lemma_whole(b);
        lemma_whole(r);
        let (ax, ay, bx, by) = (a.x, a.y, b.x, b.y);
        assert(((ax ^ bx) as u64) | (((ay ^ by) as u64) << 32) == ((ax as u64) | ((ay as u64)
            << 32)) ^ ((bx as u64) | ((by as u64) << 32))) by (bit_vector);
    }
    r
}

/// The low 48 bits.
pub fn and_mask48(a: Vec2) -> (r: Vec2)
    ensures
        r.value() == a.value() % java::states(),
{
    let (x, y): (u32, u32) = (a.x, a.y);
    proof {
        assert(x & 0xFFFF_FFFF == x && y & 0xFFFF == y % 0x1_0000) by (bit_vector);
        lemma_fundamental_div_mod_converse(
            a.value(),
            java::states(),
            y as int / 0x1_0000,
            gpu::joined(x, (y % 0x1_0000) as u32),
        );
    }
    Vec2 { x: x & 0xFFFF_FFFF, y: y & 0xFFFF }
}

/// Whether the first number is less than the second.
pub fn less_than(a: Vec2, b: Vec2) -> (r: bool)
    ensures
        r == (a.value() < b.value()),
{
    if a.y < b.y {
        return true;
    }
    if a.y > b.y {
        return false;
    }
    a.x < b.x
}

/// Whether a seed fails a check: the same result as that of the check on whole numbers.
pub fn check_fails(seed: Vec2, obj: &CheckObject) -> (r: bool)
    ensures
        r == block_data::check_fails(*obj, whole(seed)),
{
    let mixed: Vec2 = xor64(seed, Vec2::of(obj.pos_hash));
    let product: Vec2 = mul_lcg(mixed);
    let sum: Vec2 = add64(product, Vec2::of(obj.offset));
    let val: Vec2 = and_mask48(sum);
    proof {
        lemma_whole(mixed);
        let m = 0x1_0000_0000_0000_0000int;
        let exact = mixed.value() * java::multiplier();
        lemma_add_mod_noop(exact, obj.offset as int, m);
        lemma_add_mod_noop(product.value(), obj.offset as int, m);
        lemma_mod_twice(exact, m);
        java::lemma_low48_of_64(exact + obj.offset);
    }
    less_than(val, Vec2::of(obj.condition))
}

/// The lowest seed with the upper bits `base + index`.
pub fn coarse_seed(base: Vec2, index: u32) -> (r: Vec2)
    ensures
        r.value() == ((base.value() + index) * 0x1000) % java::states(),
{
    let lo: u32 = base.x.wrapping_add(index);
    let carry: u32 = carry_of(lo, base.x);
    let hi: u32 = base.y.wrapping_add(carry);
    proof {
        assert(lo << 12 == (lo % 0x10_0000) * 0x1000 && lo >> 20 == lo / 0x10_0000) by (bit_vector);
        assert(((hi << 12) | (lo >> 20)) & 0xFFFF == (hi % 0x10) * 0x1000 + lo / 0x10_0000)
            by (bit_vector);
        let exact = (base.value() + index) * 0x1000;
        let r = gpu::joined((lo << 12) as u32, ((hi % 0x10) * 0x1000 + lo / 0x10_0000) as u32);
        let over = (base.y + carry - hi) / 0x1_0000_0000;
        let q = over * 0x1_0000_0000 / 0x10 + hi as int / 0x10;
        assert(base.y + carry == over * 0x1_0000_0000 + hi);
        assert(lo + carry * 0x1_0000_0000 == base.x + index);
        assert(exact == q * java::states() + r);
        lemma_fundamental_div_mod_converse(exact, java::states(), q, r);
    }
    Vec2 { x: lo << 12, y: ((hi << 12) | (lo >> 20)) & 0xFFFF }
}

/// The seed with the upper bits `base + offset` and the low bits `lower`.
pub fn fine_seed(base: Vec2, offset: u32, lower: u32) -> (r: Vec2)
    requires
        lower < 0x1000,
    ensures
        r.value() == ((base.value() + offset) * 0x1000) % java::states() + lower,
{
    let first: Vec2 = coarse_seed(base, offset);
    let x: u32 = first.x;
    proof {
        let exact = (base.value() + offset) * 0x1000;
        lemma_mod_mod(exact, 0x1000, 0x10_0000_0000);
        lemma_mod_multiples_basic(base.value() + offset, 0x1000);
        assert(first.value() % 0x1000 == 0);
        assert(x % 0x1000 == 0 && lower < 0x1000 ==> x | lower == x + lower) by (bit_vector);
    }
    Vec2 { x: x | lower, y: first.y }
}

/// Whether the coarse pass keeps an index: it lies in the range, and the lowest seed with its
/// upper bits passes the coarse checks.
pub fn main_coarse(base: Vec2, chunk_len: u32, index: u32, checks: &[CheckObject]) -> (r: bool)
    ensures
        r == (index < chunk_len && cross::passes_all(
            checks@,
            (((base.value() + index) * 0x1000) % java::states()) as u64,
        )),
{
    if index >= chunk_len {
        return false;
    }
    let seed: Vec2 = coarse_seed(base, index);
    let mut i: usize = 0;
    while i < checks.len()
        invariant
            i <= checks@.len(),
            index < chunk_len,
            seed.value() == ((base.value() + index) * 0x1000) % java::states(),
            forall|j: int|
                0 <= j < i ==> !#[trigger] block_data::check_fails(checks@[j], whole(seed)),
        decreases checks@.len() - i,
    {
        if check_fails(seed, &checks[i]) {
            return false;
        }
        i += 1;
    }
    proof {
        assert(cross::passes_all(checks@, whole(seed)));
    }
    true
}

/// The seeds that the fine pass keeps for an index: of the 2^12 seeds with its upper bits those
/// that pass the checks.
pub fn main_fine(base: Vec2, offset: u32, checks: &[CheckObject]) -> (r: Vec<u64>)
    requires
        base.value() + offset < 0x10_0000_0000,
    ensures
        r@ == plan::block_candidates_of(
            checks@,
            ((base.value() + offset) * 0x1000) as u64,
            0x1000,
        ),
{
    let ghost first = ((base.value() + offset) * 0x1000) as u64;
    let ghost p = |seed: u64| cross::passes_all(checks@, seed);
    let mut r: Vec<u64> = Vec::new();
    let mut lower: u32 = 0;
    proof {
        lemma_small_mod(first as nat, java::states() as nat);
        reveal(Seq::filter);
        assert(Seq::new(0, |i: int| (first + i) as u64) == Seq::<u64>::empty());
    }
    while lower < 0x1000
        invariant
            lower <= 0x1000,
            base.value() + offset < 0x10_0000_0000,
            first == (base.value() + offset) * 0x1000,
            first as int % java::states() == first,
            p == (|seed: u64| cross::passes_all(checks@, seed)),
            r@ == plan::block_candidates_of(checks@, first, lower as nat),
        decreases 0x1000 - lower,
    {
        let seed: Vec2 = fine_seed(base, offset, lower);
        let mut failed: bool = false;
        let mut c: usize = 0;
        while c < checks.len() && !failed
            invariant
                c <= checks@.len(),
                !failed ==> forall|j: int|
                    0 <= j < c ==> !#[trigger] block_data::check_fails(checks@[j], whole(seed)),
                failed ==> !cross::passes_all(checks@, whole(seed)),
            decreases checks@.len() - c,
        {
            if check_fails(seed, &checks[c]) {
                failed = true;
            }
            c += 1;
        }
        proof {
            let f = |i: int| (first + i) as u64;
            let s = Seq::new((lower + 1) as nat, f);
            plan::lemma_step(s, lower as int, p, |x: u64| x);
            assert(s.take(lower as int) == Seq::new(lower as nat, f));
            assert(s.take(lower + 1) == s);
            assert(s[lower as int] == whole(seed));
        }
        if !failed {
            r.push(gpu::u32x2_to_u64([seed.x, seed.y]));
        }
        lower += 1;
    }
    r
}

/// The workgroups of a fine pass in three directions, one for each coarse result.
pub open spec fn fine_groups(coarse_count: int) -> (int, int, int) {
    if coarse_count == 0 {
        (0, 0, 0)
    } else {
        let x = if coarse_count <= 65535 {
            coarse_count
        } else {
            65535
        };
        (x, (coarse_count + x - 1) / x, 1)
    }
}

/// The workgroups of a fine pass, from the number of coarse results and the number that the
/// buffer holds.
pub fn main_prepare_fine(raw: u32, cap: u32) -> (r: (u32, u32, u32))
    requires
        cap <= 0xFFFF_0001,
    ensures
        (r.0 as int, r.1 as int, r.2 as int) == fine_groups(
            if raw <= cap {
                raw as int
            } else {
                cap as int
            },
        ),
{
    let coarse_count: u32 = if raw <= cap {
        raw
    } else {
        cap
    };
    if coarse_count == 0 {
        return (0, 0, 0);
    }
    let x: u32 = if coarse_count <= 65535 {
        coarse_count
    } else {
        65535
    };
    (x, (coarse_count + (x - 1)) / x, 1)
}

/// The first indices of a range, `count` of them, that the coarse pass keeps.
pub open spec fn kept_indices(range: GpuRange, coarse_checks: Seq<CheckObject>, count: nat) -> Seq<
    u32,
> {
    Seq::new(count, |i: int| i as u32).filter(
        |i: u32|
            cross::passes_all(
                coarse_checks,
                (((range.start + i) * 0x1000) % java::states()) as u64,
            ),
    )
}

/// The seeds that the fine pass keeps for indices of a range.
pub open spec fn seeds_at(range: GpuRange, fine_checks: Seq<CheckObject>, indices: Seq<u32>) -> Seq<
    u64,
>
    decreases indices.len(),
{
    if indices.len() == 0 {
        Seq::empty()
    } else {
        seeds_at(range, fine_checks, indices.drop_last()) + plan::block_candidates_of(
            fine_checks,
            ((range.start + indices.last()) * 0x1000) as u64,
            0x1000,
        )
    }
}

/// The seeds of a range that both passes keep.
pub open spec fn kept_seeds(
    range: GpuRange,
    coarse_checks: Seq<CheckObject>,
    fine_checks: Seq<CheckObject>,
) -> Seq<u64> {
    seeds_at(range, fine_checks, kept_indices(range, coarse_checks, range.len as nat))
}

/// A flag that is set where a buffer holds fewer results than there are.
pub open spec fn overflow_flag(results: nat, cap: nat) -> u32 {
    if results > cap {
        1
    } else {
        0
    }
}

/// The counters after a pass over a range, with buffers for so many coarse and fine results.
/// Coarse results are counted and flagged by what the coarse pass keeps. Where its buffer holds
/// them all, fine results are counted and flagged by what both passes keep, in whatever order
/// the invocations run; the count is cut to 32 bits. Where it does not, it depends on that order
/// for which of the indices the fine pass runs, and nothing is said of its counters.
pub open spec fn counters(
    range: GpuRange,
    coarse_checks: Seq<CheckObject>,
    fine_checks: Seq<CheckObject>,
    max_coarse: nat,
    max_fine: nat,
    stats: StatsReadback,
) -> bool {
    let indices = kept_indices(range, coarse_checks, range.len as nat).len();
    let seeds = kept_seeds(range, coarse_checks, fine_checks).len();
    &&& stats.coarse_count == indices
    &&& stats.coarse_overflow == overflow_flag(indices, max_coarse)
    &&& indices <= max_coarse ==> {
        &&& stats.fine_count as int == seeds as int % 0x1_0000_0000
        &&& stats.fine_overflow == overflow_flag(seeds, max_fine)
    }
}

/// Counts one more result, and sets the flag if the buffer has no room for it.
pub fn count_result(count: u32, overflow: u32, cap: u32) -> (r: (u32, u32))
    ensures
        r.0 as int == (count + 1) % 0x1_0000_0000,
        r.1 == (if count < cap {
            overflow
        } else {
            1u32
        }),
{
    (
        count.wrapping_add(1),
        if count < cap {
            overflow
        } else {
            1
        },
    )
}

/// The coarse pass over a range, one index after the other: the indices that the buffer holds, how
/// many were kept, and whether the buffer overflowed.
fn coarse_pass(range: GpuRange, coarse_checks: &[CheckObject], max_coarse: u32) -> (r: (
    Vec<u32>,
    u32,
    u32,
))
    ensures
        ({
            let kept = kept_indices(range, coarse_checks@, range.len as nat);
            &&& r.1 == kept.len()
            &&& r.2 == overflow_flag(kept.len(), max_coarse as nat)
            &&& r.0@ == kept.take(
                if kept.len() <= max_coarse {
                    kept.len() as int
                } else {
                    max_coarse as int
                },
            )
        }),
{
    let base: Vec2 = Vec2::of(range.start);
    let ghost p = |i: u32|
        cross::passes_all(
            coarse_checks@,
            (((range.start + i) * 0x1000) % java::states()) as u64,
        );
    let ghost f = |i: int| i as u32;
    let mut held: Vec<u32> = Vec::new();
    let mut count: u32 = 0;
    let mut overflow: u32 = 0;
    let mut index: u32 = 0;
    proof {
        reveal(Seq::filter);
        assert(Seq::new(0, f) == Seq::<u32>::empty());
        let none = kept_indices(range, coarse_checks@, 0);
        assert(none == Seq::<u32>::empty());
        assert(none.take(0) == none);
    }
    while index < range.len
        invariant
            index <= range.len,
            base.value() == range.start,
            p == (|i: u32|
                cross::passes_all(
                    coarse_checks@,
                    (((range.start + i) * 0x1000) % java::states()) as u64,
                )),
            f == (|i: int| i as u32),
            count == kept_indices(range, coarse_checks@, index as nat).len(),
            count <= index,
            overflow == overflow_flag(count as nat, max_coarse as nat),
            held@ == kept_indices(range, coarse_checks@, index as nat).take(
                if count <= max_coarse {
                    count as int
                } else {
                    max_coarse as int
                },
            ),
        decreases range.len - index,
    {
        let ghost before = kept_indices(range, coarse_checks@, index as nat);
        let ghost after = kept_indices(range, coarse_checks@, (index + 1) as nat);
        proof {
            let s = Seq::new((index + 1) as nat, f);
            plan::lemma_step(s, index as int, p, |x: u32| x);
            assert(s.take(index as int) == Seq::new(index as nat, f));
            assert(s.take(index + 1) == s);
            assert(before.take(before.len() as int) == before);
            if p(index) {
                assert(after == before.push(index));
                assert(after.take(after.len() as int) == after);
                if count >= max_coarse {
                    assert(after.take(max_coarse as int) == before.take(max_coarse as int));
                }
            } else {
                assert(after == before);
            }
        }
        if main_coarse(base, range.len, index, coarse_checks) {
            if count < max_coarse {
                held.push(index);
            }
            let next: (u32, u32) = count_result(count, overflow, max_coarse);
            count = next.0;
            overflow = next.1;
        }
        index += 1;
    }
    (held, count, overflow)
}

/// What a pass leaves in its buffers.
#[derive(Debug)]
pub struct PassOutput {
    pub stats: StatsReadback,
    pub seeds: Vec<u64>,
}

/// A whole pass over a range, with its invocations one after the other and buffers for so many
/// coarse and fine results.
pub fn run_pass(
    range: GpuRange,
    coarse_checks: &[CheckObject],
    fine_checks: &[CheckObject],
    max_coarse: u32,
    max_fine: u32,
) -> (r: PassOutput)
    requires
        range.end() <= 0x10_0000_0000,
    ensures
        counters(
            range,
            coarse_checks@,
            fine_checks@,
            max_coarse as nat,
            max_fine as nat,
            r.stats,
        ),
        r.stats.coarse_overflow == 0 && r.stats.fine_overflow == 0 ==> r.seeds@ == kept_seeds(
            range,
            coarse_checks@,
            fine_checks@,
        ),
{
    let (held, coarse_count, coarse_overflow): (Vec<u32>, u32, u32) = coarse_pass(
        range,
        coarse_checks,
        max_coarse,
    );
    let ghost kept = kept_indices(range, coarse_checks@, range.len as nat);
    let base: Vec2 = Vec2::of(range.start);
    let mut seeds: Vec<u64> = Vec::new();
    let mut fine_count: u32 = 0;
    let mut fine_overflow: u32 = 0;
    let mut i: usize = 0;
    proof {
        assert(kept.take(kept.len() as int) == kept);
        assert forall|k: int| 0 <= k < held@.len() implies #[trigger] held@[k] < range.len by {
            lemma_kept_below(range, coarse_checks@, range.len as nat, k);
        }
    }
    while i < held.len()
        invariant
            i <= held@.len(),
            base.value() == range.start,
            range.end() <= 0x10_0000_0000,
            forall|k: int| 0 <= k < held@.len() ==> #[trigger] held@[k] < range.len,
            holds(
                seeds_at(range, fine_checks@, held@.take(i as int)),
                max_fine,
                seeds@,
                fine_count,
                fine_overflow,
            ),
        decreases held@.len() - i,
    {
        let found: Vec<u64> = main_fine(base, held[i], fine_checks);
        let ghost earlier = seeds_at(range, fine_checks@, held@.take(i as int));
        let mut j: usize = 0;
        proof {
            assert(earlier + found@.take(0) == earlier);
        }
        while j < found.len()
            invariant
                j <= found@.len(),
                holds(
                    earlier + found@.take(j as int),
                    max_fine,
                    seeds@,
                    fine_count,
                    fine_overflow,
                ),
            decreases found@.len() - j,
        {
            let ghost all = earlier + found@.take(j as int);
            let seed: u64 = found[j];
            if fine_count < max_fine {
                if (fine_count as usize) < seeds.len() {
                    seeds.set(fine_count as usize, seed);
                } else {
                    seeds.push(seed);
                }
            }
            let next: (u32, u32) = count_result(fine_count, fine_overflow, max_fine);
            fine_count = next.0;
            fine_overflow = next.1;
            proof {
                assert(earlier + found@.take(j + 1) == all.push(seed));
            }
            j += 1;
        }
        proof {
            assert(found@.take(j as int) == found@);
            let next = held@.take(i + 1);
            assert(next.drop_last() == held@.take(i as int));
            assert(next.last() == held@[i as int]);
        }
        i += 1;
    }
    proof {
        assert(held@.take(i as int) == held@);
    }
    PassOutput {
        stats: StatsReadback { coarse_count, fine_count, coarse_overflow, fine_overflow },
        seeds,
    }
}

/// The buffer and the counters after these results: the results where the buffer holds them all,
/// and a full buffer otherwise.
spec fn holds(all: Seq<u64>, cap: u32, buffer: Seq<u64>, count: u32, overflow: u32) -> bool {
    &&& count as int == all.len() as int % 0x1_0000_0000
    &&& overflow == overflow_flag(all.len(), cap as nat)
    &&& all.len() <= cap ==> buffer == all
    &&& all.len() > cap ==> buffer.len() == cap
}

/// The indices that the coarse pass keeps are below the number that it looks at.
proof fn lemma_kept_below(range: GpuRange, coarse_checks: Seq<CheckObject>, count: nat, k: int)
    requires
        count <= u32::MAX,
        0 <= k < kept_indices(range, coarse_checks, count).len(),
    ensures
        kept_indices(range, coarse_checks, count)[k] < count,
{
    let all = Seq::new(count, |i: int| i as u32);
    let p = |i: u32|
        cross::passes_all(
            coarse_checks,
            (((range.start + i) * 0x1000) % java::states()) as u64,
        );
    let it = all.filter(p)[k];
    all.lemma_filter_contains_rev(p, it);
    let j = all.index_of(it);
    assert(all[j] == it);
}

} // verus!
