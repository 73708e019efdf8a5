//! What a position and a layer make of a block.
use vstd::arithmetic::div_mod::*;
use vstd::arithmetic::power2::*;
use vstd::prelude::*;

use crate::binary64;
use crate::block_data;
use crate::block_data::BlockFilter;
use crate::block_data::CheckObject;
use crate::laws::filters;
use crate::plan;
use crate::raw_data::block::Block;
use crate::raw_data::block_type::BlockType;
use crate::raw_data::modes::BedrockGeneration;

verus! {

/// The coordinates of a position are mixed independently of each other, by exclusive or. The
/// height enters as it is. The third coordinate enters as a 64-bit product, which is exact. The
/// first coordinate enters as a 32-bit product: a signed 32-bit number that differs from the exact
/// product by a multiple of 2^32.
pub proof fn law_coordinates_are_mixed(x: i32, y: i32, z: i32)
    ensures
        block_data::position_mix(x, y, z) == (block_data::position_mix(x, 0, 0)
            ^ block_data::position_mix(0, 0, z)) ^ block_data::position_mix(0, y, 0),
        block_data::position_mix(0, y, 0) == y,
        block_data::position_mix(0, 0, z) == z * 116129781,
        -2147483648 <= block_data::position_mix(x, 0, 0) <= 2147483647,
        (x * 3129871 - block_data::position_mix(x, 0, 0)) % 4294967296 == 0,
{
    let a: i64 = x.wrapping_mul(3129871) as i64;
    let b: i64 = (z as i64).wrapping_mul(116129781);
    let c: i64 = y as i64;
    let zero: i64 = 0;
    let product = x * 3129871;
    lemma_fundamental_div_mod(product, 4294967296);
    let q = product / 4294967296;
    assert(a == product - q * 4294967296 || a == product - (q + 1) * 4294967296);
    lemma_mod_multiples_basic(q, 4294967296);
    lemma_mod_multiples_basic(q + 1, 4294967296);
    let wide = z * 116129781;
    assert(b == wide) by {
        if wide >= 0 {
            lemma_small_mod(wide as nat, 0x1_0000_0000_0000_0000);
        } else {
            lemma_mod_add_multiples_vanish(wide, 0x1_0000_0000_0000_0000);
            lemma_small_mod((wide + 0x1_0000_0000_0000_0000) as nat, 0x1_0000_0000_0000_0000);
        }
    }
    let nx: i32 = 0i32.wrapping_mul(3129871);
    let nz: i64 = 0i64.wrapping_mul(116129781);
    lemma_small_mod(0, 0x1_0000_0000);
    lemma_small_mod(0, 0x1_0000_0000_0000_0000);
    assert(nx == 0 && nz == 0);
    assert((a ^ 0i64) ^ 0i64 == a && (0i64 ^ b) ^ 0i64 == b && (0i64 ^ 0i64) ^ c == c)
        by (bit_vector);
    assert(block_data::position_mix(x, 0, 0) == (a ^ 0i64) ^ 0i64);
    assert(block_data::position_mix(0, 0, z) == (0i64 ^ b) ^ 0i64);
    assert(block_data::position_mix(0, y, 0) == (0i64 ^ 0i64) ^ c);
}

/// The hash of a position is the upper 48 of the 64 low bits of `42317861 p^2 + 11 p`, where `p` is
/// the mix of its coordinates: with some 16 bits behind it, it differs from that number by a
/// multiple of 2^64.
pub proof fn law_hash_is_cut_from_a_square(x: i32, y: i32, z: i32) -> (low: int)
    ensures
        0 <= low < 65536,
        block_data::position_hash(x, y, z) <= 281474976710655,
        ({
            let p = block_data::position_mix(x, y, z);
            (42317861 * (p * p) + 11 * p - (block_data::position_hash(x, y, z) * 65536 + low))
                % 18446744073709551616 == 0
        }),
{
    let p = block_data::position_mix(x, y, z) as int;
    let m = 0x1_0000_0000_0000_0000int;
    let n = p * p * 42317861 + p * 11;
    let h = n % m;
    lemma_fundamental_div_mod(n, m);
    lemma_mod_multiples_basic(n / m, m);
    assert(42317861 * (p * p) + 11 * p == n) by (nonlinear_arith)
        requires
            n == p * p * 42317861 + p * 11,
    ;
    assert(m * (n / m) == (n / m) * m) by (nonlinear_arith);
    h % 65536
}

/// A filter tests the position of its block in the whole range of draws: its hash is combined with
/// the multiplier by exclusive or. Where each position draws its own number, it is the hash of the
/// block's own position. Where a column shares a number, it is the hash of the position in the
/// same column at height 0 for the floor and at height 122 for the roof. The bounds do not depend
/// on it.
pub proof fn law_filters_test_the_drawing_position(b: Block)
    ensures
        ({
            let own = block_data::filter_of(b, BedrockGeneration::Normal);
            let paper = block_data::filter_of(b, BedrockGeneration::Paper1_18);
            let at = Block {
                y: if b.y > 5 {
                    122
                } else {
                    0
                },
                ..b
            };
            &&& own.pos_hash == block_data::position_hash(b.x, b.y, b.z) ^ 25214903917u64
            &&& paper.pos_hash == block_data::filter_of(at, BedrockGeneration::Normal).pos_hash
            &&& paper.pos_hash == block_data::position_hash(at.x, at.y, at.z) ^ 25214903917u64
            &&& own.possible_range == 281474976710655
            &&& paper.possible_range == 281474976710655
            &&& paper.lower_bound == own.lower_bound
            &&& paper.upper_bound == own.upper_bound
        }),
{
}

/// The draw of a seed is the low 48 bits of the multiplier times the seed combined with the hash.
/// A check fails if the low 48 bits of that product plus the offset are below its condition.
pub proof fn law_draws_and_checks_are_products(f: BlockFilter, check: CheckObject, seed: u64)
    ensures
        0 <= f.draw(seed) < 281474976710656,
        ((seed ^ f.pos_hash) * 25214903917 - f.draw(seed)) % 281474976710656 == 0,
        exists|v: int|
            0 <= v < 281474976710656 && #[trigger] ((seed ^ check.pos_hash) * 25214903917
                + check.offset - v) % 281474976710656 == 0 && (block_data::check_fails(check, seed)
                <==> v < check.condition),
{
    let m = 281474976710656int;
    let n = (seed ^ f.pos_hash) * 25214903917;
    lemma_fundamental_div_mod(n, m);
    lemma_mod_multiples_basic(n / m, m);
    assert(m * (n / m) == (n / m) * m) by (nonlinear_arith);
    let w = (seed ^ check.pos_hash) * 25214903917 + check.offset;
    lemma_fundamental_div_mod(w, m);
    lemma_mod_multiples_basic(w / m, m);
    assert(m * (w / m) == (w / m) * m) by (nonlinear_arith);
    let v = w % m;
    assert(((seed ^ check.pos_hash) * 25214903917 + check.offset - v) % 281474976710656 == 0);
}

/// The threshold of `k` fifths is none for no or fewer fifths, and `k / 5` of the largest draw
/// otherwise, cut to an integer, with a relative error of at most 2^-51, unless that exceeds 64
/// bits.
pub proof fn law_thresholds_are_fifths(k: int)
    requires
        k <= 0x7FFF_FFFF,
    ensures
        k <= 0 ==> block_data::threshold(k) == 0,
        k > 0 && block_data::threshold(k) < u64::MAX ==> {
            let exact = k * 281474976710655;
            let t = 5 * block_data::threshold(k);
            &&& t * 0x8_0000_0000_0000 <= exact * 0x8_0000_0000_0001
            &&& exact * 0x7_FFFF_FFFF_FFFF <= (t + 5) * 0x8_0000_0000_0000
        },
        block_data::threshold(k) == u64::MAX ==> 5 * u64::MAX * 0x8_0000_0000_0000 <= k
            * 281474976710655 * 0x8_0000_0000_0001,
{
    if k > 0 {
        let unit = binary64::unit();
        let n = k as nat;
        let mask = 281474976710655nat;
        lemma_pow2_pos(1074);
        lemma2_to64();
        lemma_pow2_strictly_increases(64, 1074);
        assert(n * unit >= unit) by (nonlinear_arith)
            requires
                n >= 1,
        ;
        binary64::lemma_small_int(n);
        binary64::lemma_small_int(5);
        binary64::lemma_small_int(mask);
        binary64::lemma_nearest_scale(n * unit, 5, unit);
        let q = binary64::nearest(n * unit, 5);
        assert(binary64::over(n * unit, 5 * unit) == q);
        lemma_close(n * unit, 5);
        assert(q * (mask * unit) == (q * mask) * unit) by (nonlinear_arith);
        assert(1 * unit == unit);
        binary64::lemma_nearest_scale(q * mask, 1, unit);
        let v = binary64::nearest(q * mask, 1);
        assert(binary64::times(q, mask * unit) == v);
        assert(q >= 0x20_0000_0000_0000);
        lemma_close(q * mask, 1);
        let t = v / unit;
        lemma_fundamental_div_mod(v as int, unit as int);
        assert(t * unit <= v <= (t + 1) * unit) by (nonlinear_arith)
            requires
                v == unit * t + v as int % unit as int,
                0 <= v as int % (unit as int) < unit,
        ;
        lemma_two_errors(n, mask, unit, q, v);
        let e = n * mask;
        assert(5 * t * 0x8_0000_0000_0000 <= e * 0x8_0000_0000_0001) by (nonlinear_arith)
            requires
                5 * v * 0x8_0000_0000_0000 <= e * unit * 0x8_0000_0000_0001,
                t * unit <= v,
                unit > 0,
        ;
        assert(e * 0x7_FFFF_FFFF_FFFF <= (5 * t + 5) * 0x8_0000_0000_0000) by (nonlinear_arith)
            requires
                e * unit * 0x7_FFFF_FFFF_FFFF <= 5 * v * 0x8_0000_0000_0000,
                v <= (t + 1) * unit,
                unit > 0,
        ;
    }
}

/// Rounding is off by at most one part in 2^53.
proof fn lemma_close(n: nat, d: nat)
    requires
        d > 0,
        n >= d * 0x20_0000_0000_0000,
    ensures
        binary64::nearest(n, d) * d * 0x20_0000_0000_0000 <= n * 0x20_0000_0000_0001,
        n * 0x1F_FFFF_FFFF_FFFF <= binary64::nearest(n, d) * d * 0x20_0000_0000_0000,
{
    binary64::lemma_rounding_error(n, d);
    let q = n / d;
    let gap = binary64::spacing(q);
    let r = binary64::nearest(n, d) * d;
    lemma_fundamental_div_mod(n as int, d as int);
    assert(q >= 0x20_0000_0000_0000) by (nonlinear_arith)
        requires
            n == d * q + n as int % d as int,
            n as int % (d as int) < d,
            n >= d * 0x20_0000_0000_0000,
            d > 0,
    ;
    assert(0x10_0000_0000_0000 * gap <= q);
    assert(0x10_0000_0000_0000 * (d * gap) <= n) by (nonlinear_arith)
        requires
            0x10_0000_0000_0000 * gap <= q,
            d * q <= n,
    ;
}

/// Two roundings in a row, of a fifth and of a product with the largest draw.
proof fn lemma_two_errors(n: nat, mask: nat, unit: nat, q: nat, v: nat)
    requires
        q * 5 * 0x20_0000_0000_0000 <= (n * unit) * 0x20_0000_0000_0001,
        (n * unit) * 0x1F_FFFF_FFFF_FFFF <= q * 5 * 0x20_0000_0000_0000,
        v * 1 * 0x20_0000_0000_0000 <= (q * mask) * 0x20_0000_0000_0001,
        (q * mask) * 0x1F_FFFF_FFFF_FFFF <= v * 1 * 0x20_0000_0000_0000,
    ensures
        5 * v * 0x8_0000_0000_0000 <= n * mask * unit * 0x8_0000_0000_0001,
        n * mask * unit * 0x7_FFFF_FFFF_FFFF <= 5 * v * 0x8_0000_0000_0000,
{
    let a = n * unit * mask;
    let b = q * mask;
    assert(n * mask * unit == a) by (nonlinear_arith)
        requires
            a == n * unit * mask,
    ;
    assert(b * 5 * 0x20_0000_0000_0000 <= a * 0x20_0000_0000_0001) by (nonlinear_arith)
        requires
            a == (n * unit) * mask,
            b == q * mask,
            q * 5 * 0x20_0000_0000_0000 <= (n * unit) * 0x20_0000_0000_0001,
    ;
    assert(a * 0x1F_FFFF_FFFF_FFFF <= b * 5 * 0x20_0000_0000_0000) by (nonlinear_arith)
        requires
            a == (n * unit) * mask,
            b == q * mask,
            (n * unit) * 0x1F_FFFF_FFFF_FFFF <= q * 5 * 0x20_0000_0000_0000,
    ;
}

/// On the floor, layers up to 5, a block is bedrock if its draw is at most the threshold of
/// `5 - layer` fifths, and no bedrock if it is at least that. On the roof it is the other way
/// round, with the threshold of `127 - layer` fifths. In layers 0 to 5 and 122 to 127 these are
/// exact fifths of the largest draw.
pub proof fn law_bounds_of_the_layers(layer: int)
    ensures
        ({
            let t = block_data::threshold(5 - layer);
            let u = block_data::threshold(127 - layer);
            &&& layer <= 5 ==> block_data::draw_bounds(layer, BlockType::BEDROCK) == (0u64, t)
            &&& layer <= 5 ==> block_data::draw_bounds(layer, BlockType::OTHER) == (
                t,
                281474976710655u64,
            )
            &&& layer > 5 ==> block_data::draw_bounds(layer, BlockType::BEDROCK) == (
                u,
                281474976710655u64,
            )
            &&& layer > 5 ==> block_data::draw_bounds(layer, BlockType::OTHER) == (0u64, u)
            &&& 0 <= layer <= 5 ==> t == (5 - layer) * 56294995342131
            &&& 122 <= layer <= 127 ==> u == (127 - layer) * 56294995342131
        }),
{
    if 0 <= layer <= 5 {
        filters::law_thresholds_are_exact(5 - layer);
    }
    if 122 <= layer <= 127 {
        filters::law_thresholds_are_exact(127 - layer);
    }
}

/// A block can be checked exactly if it lies in a layer where bedrock is random, 1 to 4 or 123 to
/// 126. It can be estimated exactly if its layer can hold it: bedrock below layer 5 or from layer
/// 123 on, anything else from layer 1 to 126, or in the six lowest numbers not at all.
pub proof fn law_which_layers_can_be_used(b: Block)
    ensures
        plan::checkable(b) <==> 1 <= b.y <= 4 || 123 <= b.y <= 126,
        plan::measurable(b) <==> b.y >= -2147483642 && match b.block_type {
            BlockType::BEDROCK => b.y <= 4 || b.y >= 123,
            BlockType::OTHER => 1 <= b.y <= 126,
        },
{
    lemma2_to64();
    let k = if b.y > 5 {
        127 - b.y
    } else {
        5 - b.y
    };
    assert(block_data::fifths(b.y as int) == k);
    if 0 <= k <= 5 {
        filters::law_thresholds_are_exact(k);
    } else if k <= 0x7FFF_FFFF {
        law_thresholds_are_fifths(k);
    }
}

/// A check leaves its low bits of the hash out. On a seed with these bits cleared it passes exactly
/// if a draw that explains the block can be reached from the draw that it sees by adding at most
/// what the open bits can add.
pub proof fn law_partial_check_passes_where_a_draw_can(f: BlockFilter, lower_bits: u64, seed: u64)
    requires
        f.wf(),
        f.narrows(lower_bits),
    ensures
        ({
            let check = f.check_of(lower_bits);
            let seen = (seed ^ check.pos_hash) * 25214903917;
            &&& f.pos_hash - check.pos_hash == f.pos_hash as int % pow2(lower_bits as nat) as int
            &&& !block_data::check_fails(check, seed) <==> exists|e: int|
                0 <= e <= (pow2(lower_bits as nat) - 1) * 25214903917 && #[trigger] explained(
                    f,
                    seen + e,
                )
        }),
{
    let m = 281474976710656int;
    let check = f.check_of(lower_bits);
    let room = (pow2(lower_bits as nat) - 1) * 25214903917;
    let (lo, hi) = (f.lower_bound as int, f.upper_bound as int);
    lemma_pow2_pos(lower_bits as nat);
    assert(room >= pow2(lower_bits as nat) - 1);
    let p = f.pos_hash;
    let mask = (pow2(lower_bits as nat) - 1) as u64;
    let keep = (0xFFFF_FFFF_FFFFu64 - mask) as u64;
    vstd::bits::lemma_u64_low_bits_mask_is_mod(p, lower_bits as nat);
    assert(vstd::bits::low_bits_mask(lower_bits as nat) == mask);
    assert((p & keep) + (p & mask) == p) by (bit_vector)
        requires
            p <= 0xFFFF_FFFF_FFFFu64,
            mask <= 0xFFFF_FFFF_FFFFu64,
            keep == 0xFFFF_FFFF_FFFFu64 - mask,
    ;
    let seen = (seed ^ check.pos_hash) * 25214903917;
    let v = (seen + check.offset) % m;
    // How far the draw lies below the upper bound.
    let u = m - 1 - v;
    lemma_fundamental_div_mod(seen + check.offset, m);
    let q = (seen + check.offset) / m;
    assert(seen == m * q + hi - u);
    if !block_data::check_fails(check, seed) {
        let e = if u <= hi - lo {
            0
        } else {
            u - (hi - lo)
        };
        let x = hi - u + e;
        assert(0 <= e <= room && lo <= x <= hi);
        lemma_fundamental_div_mod_converse(seen + e, m, q, x);
        assert(explained(f, seen + e));
    }
    if exists|e: int| 0 <= e <= room && #[trigger] explained(f, seen + e) {
        let e = choose|e: int| 0 <= e <= room && #[trigger] explained(f, seen + e);
        let x = (seen + e) % m;
        let d = (seen + e) / m;
        lemma_fundamental_div_mod(seen + e, m);
        assert(m * q + hi - u + e == m * d + x);
        assert(m * (d - q) == hi - u + e - x) by (nonlinear_arith)
            requires
                m * q + hi - u + e == m * d + x,
        ;
        assert(d - q == 0) by (nonlinear_arith)
            requires
                m * (d - q) == hi - u + e - x,
                -m < hi - u + e - x < m,
                m > 0,
        ;
    }
}

/// The draw explains the block of a filter.
pub open spec fn explained(f: BlockFilter, draw: int) -> bool {
    f.lower_bound <= draw % 281474976710656 <= f.upper_bound
}

/// A check can be made exactly if the draws that explain the block, and what the open bits can
/// add, are fewer than what is still possible.
pub proof fn law_checks_have_to_narrow(f: BlockFilter, lower_bits: u64)
    ensures
        f.narrows(lower_bits) <==> lower_bits < 64 && f.lower_bound < f.upper_bound && (pow2(
            lower_bits as nat,
        ) - 1) * 25214903917 + (f.upper_bound - f.lower_bound) < f.possible_range,
{
}

/// The filters of blocks are those of each block, and their checks those of each filter: lists put
/// together give their filters and checks one after the other, and a single block gives its own.
/// Coarse checks are made of all filters, and only of those, that still narrow with 12 bits open.
pub proof fn law_every_block_makes_its_checks(
    a: Seq<Block>,
    b: Seq<Block>,
    block: Block,
    f: Seq<BlockFilter>,
    g: Seq<BlockFilter>,
    filter: BlockFilter,
    mode: BedrockGeneration,
)
    ensures
        plan::filters_of(a + b, mode) == plan::filters_of(a, mode) + plan::filters_of(b, mode),
        plan::filters_of(seq![block], mode) == seq![block_data::filter_of(block, mode)],
        plan::full_checks(f + g) == plan::full_checks(f) + plan::full_checks(g),
        plan::full_checks(seq![filter]) == seq![filter.check_of(0)],
        plan::coarse_checks_of(f + g) == plan::coarse_checks_of(f) + plan::coarse_checks_of(g),
        plan::coarse_checks_of(seq![filter]) == (if filter.narrows(12) {
            seq![filter.check_of(12)]
        } else {
            Seq::empty()
        }),
{
    let p = |f: BlockFilter| f.narrows(plan::COARSE_BITS);
    let h = |f: BlockFilter| f.check_of(plan::COARSE_BITS);
    Seq::filter_distributes_over_add(f, g, p);
    lemma_filter_one(filter, p);
    let (x, y) = (f.filter(p), g.filter(p));
    assert((x + y).map_values(h) == x.map_values(h) + y.map_values(h));
    assert(plan::full_checks(f + g) == plan::full_checks(f) + plan::full_checks(g));
    assert(plan::full_checks(seq![filter]) == seq![filter.check_of(0)]);
    assert(plan::coarse_checks_of(seq![filter]) == (if filter.narrows(12) {
        seq![filter.check_of(12)]
    } else {
        Seq::empty()
    }));
    assert(plan::filters_of(a + b, mode) == plan::filters_of(a, mode) + plan::filters_of(b, mode));
    assert(plan::filters_of(seq![block], mode) == seq![block_data::filter_of(block, mode)]);
}

proof fn lemma_filter_one<A>(x: A, p: spec_fn(A) -> bool)
    ensures
        seq![x].filter(p) == (if p(x) {
            seq![x]
        } else {
            Seq::empty()
        }),
{
    reveal(Seq::filter);
    assert(seq![x].drop_last() == Seq::<A>::empty());
    assert(Seq::<A>::empty().filter(p) == Seq::<A>::empty());
    assert(seq![x].last() == x);
}

/// Every block is on the floor or on the roof, in its order: a search parts them at height 64, a
/// list of seeds above height 5.
pub proof fn law_blocks_are_parted_by_height(a: Seq<Block>, b: Seq<Block>, block: Block)
    ensures
        plan::floor_part(a + b) == plan::floor_part(a) + plan::floor_part(b),
        plan::roof_part(a + b) == plan::roof_part(a) + plan::roof_part(b),
        plan::list_floor_part(a + b) == plan::list_floor_part(a) + plan::list_floor_part(b),
        plan::list_roof_part(a + b) == plan::list_roof_part(a) + plan::list_roof_part(b),
        plan::floor_part(seq![block]) == (if block.y < 64 {
            seq![block]
        } else {
            Seq::empty()
        }),
        plan::roof_part(seq![block]) == (if block.y < 64 {
            Seq::empty()
        } else {
            seq![block]
        }),
        plan::list_floor_part(seq![block]) == (if block.y > 5 {
            Seq::empty()
        } else {
            seq![block]
        }),
        plan::list_roof_part(seq![block]) == (if block.y > 5 {
            seq![block]
        } else {
            Seq::empty()
        }),
{
    Seq::filter_distributes_over_add(a, b, |b: Block| b.y < 64);
    Seq::filter_distributes_over_add(a, b, |b: Block| b.y >= 64);
    Seq::filter_distributes_over_add(a, b, |b: Block| b.y <= 5);
    Seq::filter_distributes_over_add(a, b, |b: Block| b.y > 5);
    lemma_filter_one(block, |b: Block| b.y < 64);
    lemma_filter_one(block, |b: Block| b.y >= 64);
    lemma_filter_one(block, |b: Block| b.y <= 5);
    lemma_filter_one(block, |b: Block| b.y > 5);
}

/// The primary surface is the one that is expected to leave fewer seeds, and the floor where both
/// leave the same.
pub proof fn law_primary_surface_leaves_fewer_seeds(floor: Seq<BlockFilter>, roof: Seq<BlockFilter>)
    ensures
        block_data::filter_power(floor) < block_data::filter_power(roof) ==> plan::floor_first(
            floor,
            roof,
        ),
        block_data::filter_power(floor) == block_data::filter_power(roof) ==> plan::floor_first(
            floor,
            roof,
        ),
        block_data::filter_power(floor) > block_data::filter_power(roof) ==> !plan::floor_first(
            floor,
            roof,
        ),
{
}

/// A check on all but some bits discards one minus the share of draws that pass it, times the seeds
/// that it decides at once, with an error of at most one part in 2^51 of these seeds.
pub proof fn law_discarded_seeds_are_the_rest(f: BlockFilter, lower_bits: u64)
    requires
        f.wf(),
        f.narrows(lower_bits),
    ensures
        ({
            let count = pow2(lower_bits as nat) * binary64::unit();
            let exact = (f.possible_range - f.range_with(lower_bits)) * count;
            let found = f.discarded(lower_bits) * f.possible_range;
            &&& (found - exact) * 0x8_0000_0000_0000 <= f.possible_range * count
            &&& (exact - found) * 0x8_0000_0000_0000 <= f.possible_range * count
        }),
{
    let unit = binary64::unit();
    let bits = lower_bits as nat;
    let count = pow2(bits);
    lemma2_to64();
    lemma_pow2_pos(1074);
    lemma_pow2_pos(bits);
    lemma_pow2_strictly_increases(64, 1074);
    lemma_pow2_strictly_increases(128, 1074);
    lemma_pow2_adds(64, 64);
    let room = block_data::jiggle_room(lower_bits);
    assert(room >= count - 1 && room == (count - 1) * 0x5_DEEC_E66D);
    let range = f.range_with(lower_bits) as nat;
    let possible = f.possible_range as nat;
    filters::lemma_discarded_parts(f, lower_bits);
    let success = binary64::nearest(range * unit, possible);
    let fail = binary64::nearest((unit - success) as nat, 1);
    let d = f.discarded(lower_bits);
    assert(range * unit >= possible * 0x20_0000_0000_0000) by (nonlinear_arith)
        requires
            range >= 1,
            possible <= 0x1_0000_0000_0000,
            unit >= 0x1_0000_0000_0000_0000 * 0x1_0000_0000_0000_0000,
    ;
    lemma_close(range * unit, possible);
    lemma_close((unit - success) as nat, 1);
    assert(fail * (count * unit) == (fail * count) * unit) by (nonlinear_arith);
    assert(1 * unit == unit);
    binary64::lemma_nearest_scale(fail * count, 1, unit);
    assert(fail * count >= fail) by (nonlinear_arith)
        requires
            count >= 1,
    ;
    lemma_close(fail * count, 1);
    lemma_three_errors(range, possible, unit, count, success, fail, d);
}

/// Three roundings in a row: of a share, of what is left of one, and of a multiple of that.
proof fn lemma_three_errors(
    range: nat,
    possible: nat,
    unit: nat,
    count: nat,
    success: nat,
    fail: nat,
    d: nat,
)
    requires
        range < possible,
        success <= unit,
        success * possible * 0x20_0000_0000_0000 <= (range * unit) * 0x20_0000_0000_0001,
        (range * unit) * 0x1F_FFFF_FFFF_FFFF <= success * possible * 0x20_0000_0000_0000,
        fail * 1 * 0x20_0000_0000_0000 <= (unit - success) * 0x20_0000_0000_0001,
        (unit - success) * 0x1F_FFFF_FFFF_FFFF <= fail * 1 * 0x20_0000_0000_0000,
        d * 1 * 0x20_0000_0000_0000 <= (fail * count) * 0x20_0000_0000_0001,
        (fail * count) * 0x1F_FFFF_FFFF_FFFF <= d * 1 * 0x20_0000_0000_0000,
    ensures
        (d * possible - (possible - range) * (count * unit)) * 0x8_0000_0000_0000 <= possible * (
        count * unit),
        ((possible - range) * (count * unit) - d * possible) * 0x8_0000_0000_0000 <= possible * (
        count * unit),
{
    let sp = success * possible;
    let ru = range * unit;
    let fp = fail * possible;
    let up = unit * possible;
    assert(ru <= up) by (nonlinear_arith)
        requires
            ru == range * unit,
            up == unit * possible,
            range < possible,
    ;
    assert((unit - success) * possible == up - sp) by (nonlinear_arith)
        requires
            sp == success * possible,
            up == unit * possible,
    ;
    assert(sp <= up) by (nonlinear_arith)
        requires
            sp == success * possible,
            up == unit * possible,
            success <= unit,
    ;
    assert(fp * 0x20_0000_0000_0000 <= (up - sp) * 0x20_0000_0000_0001) by (nonlinear_arith)
        requires
            fp == fail * possible,
            (unit - success) * possible == up - sp,
            fail * 1 * 0x20_0000_0000_0000 <= (unit - success) * 0x20_0000_0000_0001,
    ;
    assert((up - sp) * 0x1F_FFFF_FFFF_FFFF <= fp * 0x20_0000_0000_0000) by (nonlinear_arith)
        requires
            fp == fail * possible,
            (unit - success) * possible == up - sp,
            (unit - success) * 0x1F_FFFF_FFFF_FFFF <= fail * 1 * 0x20_0000_0000_0000,
    ;
    // What is left, against what should be left, before the multiple is taken.
    let rest = up - ru;
    assert(rest >= 0);
    let fpc = fp * count;
    let dp = d * possible;
    assert(dp * 0x20_0000_0000_0000 <= fpc * 0x20_0000_0000_0001) by (nonlinear_arith)
        requires
            dp == d * possible,
            fpc == fail * possible * count,
            d * 1 * 0x20_0000_0000_0000 <= (fail * count) * 0x20_0000_0000_0001,
    ;
    assert(fpc * 0x1F_FFFF_FFFF_FFFF <= dp * 0x20_0000_0000_0000) by (nonlinear_arith)
        requires
            dp == d * possible,
            fpc == fail * possible * count,
            (fail * count) * 0x1F_FFFF_FFFF_FFFF <= d * 1 * 0x20_0000_0000_0000,
    ;
    assert((fp - rest) * 0x10_0000_0000_0001 <= up && (rest - fp) * 0x10_0000_0000_0001 <= up);
    let upc = up * count;
    let rc = rest * count;
    assert((fpc - rc) * 0x10_0000_0000_0001 <= upc && (rc - fpc) * 0x10_0000_0000_0001 <= upc)
        by (nonlinear_arith)
        requires
            (fp - rest) * 0x10_0000_0000_0001 <= up,
            (rest - fp) * 0x10_0000_0000_0001 <= up,
            fpc == fp * count,
            rc == rest * count,
            upc == up * count,
    ;
    assert(0 <= rc <= upc) by (nonlinear_arith)
        requires
            rc == rest * count,
            upc == up * count,
            0 <= rest <= up,
    ;
    assert(fpc <= 2 * upc);
    assert((possible - range) * (count * unit) == rc) by (nonlinear_arith)
        requires
            rc == rest * count,
            rest == unit * possible - range * unit,
    ;
    assert(possible * (count * unit) == upc) by (nonlinear_arith)
        requires
            upc == unit * possible * count,
    ;
}

/// The primary surface has the filters of the blocks below height 64, or of those from there on,
/// and the other surface has the others.
pub proof fn law_surfaces_hold_all_blocks(blocks: Seq<Block>, mode: BedrockGeneration)
    ensures
        ({
            let (is_floor_primary, primary, secondary) = plan::surfaces(blocks, mode);
            let floor = plan::filters_of(plan::floor_part(blocks), mode);
            let roof = plan::filters_of(plan::roof_part(blocks), mode);
            &&& is_floor_primary ==> primary == floor && secondary == roof
            &&& !is_floor_primary ==> primary == roof && secondary == floor
            &&& block_data::filter_power(primary) <= block_data::filter_power(secondary)
            &&& block_data::filter_power(floor) == block_data::filter_power(roof)
                ==> is_floor_primary
        }),
{
}

} // verus!
