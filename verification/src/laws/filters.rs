//! What holds of filters and checks as a whole.
use vstd::arithmetic::div_mod::*;
use vstd::arithmetic::power2::*;
use vstd::prelude::*;

use crate::arith;
use crate::binary64;
use crate::binary64::Binary64;
use crate::block_data::BlockFilter;
use crate::block_data::CheckObject;
use crate::block_data;
use crate::java;
use crate::java::MASK48;
use crate::raw_data::block::Block;
use crate::raw_data::block_type::BlockType;
use crate::raw_data::modes::BedrockGeneration;

verus! {

/// The default check lets every seed pass.
pub proof fn law_default_check_passes(seed: u64)
    ensures
        !block_data::check_fails(CheckObject { pos_hash: 0, condition: 0, offset: 0 }, seed),
{
}

/// The check on all bits lets a seed pass if and only if the draw of the seed lies between the
/// bounds of the filter.
pub proof fn law_full_check_is_the_interval(f: BlockFilter, seed: u64)
    requires
        f.wf(),
        f.narrows(0),
    ensures
        !block_data::check_fails(f.check_of(0), seed) <==> f.lower_bound <= f.draw(seed)
            <= f.upper_bound,
{
    lemma2_to64();
    let s = java::states();
    let p = f.pos_hash;
    assert(p <= 0xFFFF_FFFF_FFFFu64 ==> p & 0xFFFF_FFFF_FFFFu64 == p) by (bit_vector);
    let check = f.check_of(0);
    assert(check.pos_hash == p);
    let r = f.draw(seed);
    let exact = (seed ^ p) * java::multiplier();
    let offset = check.offset as int;
    lemma_add_mod_noop(exact, offset, s);
    lemma_small_mod(offset as nat, s as nat);
    if r <= f.upper_bound {
        lemma_small_mod((r + offset) as nat, s as nat);
    } else {
        lemma_mod_sub_multiples_vanish(r + offset, s);
        lemma_small_mod((r + offset - s) as nat, s as nat);
    }
}

/// A check that leaves low bits of the seed open never rejects a candidate: where it fails on a
/// seed with these bits cleared, the check on all bits fails on the seed.
pub proof fn law_partial_check_keeps_candidates(f: BlockFilter, lower_bits: u64, seed: u64)
    requires
        f.wf(),
        f.narrows(lower_bits),
        block_data::check_fails(
            f.check_of(lower_bits),
            (seed - seed as int % pow2(lower_bits as nat) as int) as u64,
        ),
    ensures
        block_data::check_fails(f.check_of(0), seed),
{
    lemma2_to64();
    let s = java::states();
    let m = java::multiplier();
    let p = f.pos_hash;
    lemma_pow2_pos(lower_bits as nat);
    let mask = (pow2(lower_bits as nat) - 1) as u64;
    assert(pow2(lower_bits as nat) - 1 <= MASK48);
    vstd::bits::lemma_u64_low_bits_mask_is_mod(seed, lower_bits as nat);
    assert(vstd::bits::low_bits_mask(lower_bits as nat) == mask);
    let cleared = (seed - (seed & mask)) as u64;
    let full = f.check_of(0);
    let part = f.check_of(lower_bits);
    assert(seed >= (seed & mask)) by (bit_vector);
    assert(p & 0xFFFF_FFFF_FFFFu64 == p) by (bit_vector)
        requires
            p <= 0xFFFF_FFFF_FFFFu64,
    ;
    let keep = (MASK48 - mask) as u64;
    let t = (seed ^ p) & mask;
    assert((seed ^ p) == (cleared ^ (p & keep)) + t && t <= mask) by (bit_vector)
        requires
            p <= 0xFFFF_FFFF_FFFFu64,
            mask <= 0xFFFF_FFFF_FFFFu64,
            keep == 0xFFFF_FFFF_FFFFu64 - mask,
            cleared == seed - (seed & mask),
            t == (seed ^ p) & mask,
    ;
    let a = (cleared ^ part.pos_hash) * m + part.offset;
    let low = a % s;
    assert(t * m <= mask * m) by (nonlinear_arith)
        requires
            t <= mask,
            m == 0x5_DEEC_E66D,
    ;
    assert((seed ^ full.pos_hash) * m + full.offset == a + t * m) by (nonlinear_arith)
        requires
            seed ^ full.pos_hash == (cleared ^ part.pos_hash) + t,
            a == (cleared ^ part.pos_hash) * m + part.offset,
            full.offset == part.offset,
    ;
    lemma_add_mod_noop(a, t * m, s);
    lemma_add_mod_noop(low, t * m, s);
    lemma_mod_twice(a, s);
    lemma_small_mod((low + t * m) as nat, s as nat);
}

/// Once a check on all but `lower_bits` bits was made, a further check adds something if and only
/// if it leaves fewer bits open.
pub proof fn law_only_finer_checks_follow(f: BlockFilter, lower_bits: u64, next_bits: u64)
    requires
        f.wf(),
        f.narrows(lower_bits),
        next_bits < 64,
    ensures
        (BlockFilter { possible_range: f.range_with(lower_bits) as u64, ..f }).narrows(next_bits)
            <==> next_bits < lower_bits,
{
    lemma_pow2_pos(lower_bits as nat);
    if next_bits < lower_bits {
        lemma_pow2_strictly_increases(next_bits as nat, lower_bits as nat);
    } else {
        arith::lemma_pow2_le(lower_bits as nat, next_bits as nat);
    }
}

/// A position that is bedrock and the same position without bedrock leave no seed unexplained,
/// and share only the draw on the threshold itself.
pub proof fn law_bedrock_or_not(x: i32, y: i32, z: i32, mode: BedrockGeneration, seed: u64)
    ensures
        ({
            let yes = block_data::filter_of(Block { x, y, z, block_type: BlockType::BEDROCK }, mode);
            let no = block_data::filter_of(Block { x, y, z, block_type: BlockType::OTHER }, mode);
            let t = block_data::threshold(block_data::fifths(y as int));
            &&& yes.draw(seed) == no.draw(seed)
            &&& yes.lower_bound <= yes.draw(seed) <= yes.upper_bound || no.lower_bound <= no.draw(seed)
                <= no.upper_bound
            &&& yes.lower_bound <= yes.draw(seed) <= yes.upper_bound && no.lower_bound <= no.draw(
                seed,
            ) <= no.upper_bound ==> yes.draw(seed) == t
        }),
{
}

/// Under Paper's generation all blocks of a column on one surface see the same draw.
pub proof fn law_paper_shares_the_draw(a: Block, b: Block, seed: u64)
    requires
        a.x == b.x,
        a.z == b.z,
        (a.y > 5) == (b.y > 5),
    ensures
        block_data::filter_of(a, BedrockGeneration::Paper1_18).draw(seed) == block_data::filter_of(
            b,
            BedrockGeneration::Paper1_18,
        ).draw(seed),
{
}

/// `k / 5` of the largest draw, by the digits that the quotient and the product keep: the
/// quotient has its last digit `s` places and the product `s - t` places after the point.
proof fn lemma_threshold_digits(k: nat, s: nat, t: nat, m: nat, r: nat)
    requires
        0 < k < binary64::MANTISSA_LIMIT,
        t <= s <= 1000,
        m == binary64::round_half_even(k * pow2(s), 5),
        binary64::LEAST_NORMAL <= (k * pow2(s)) / 5 < binary64::MANTISSA_LIMIT,
        r == binary64::round_half_even(m * MASK48 as nat, pow2(t)),
        binary64::LEAST_NORMAL <= (m * MASK48 as nat) / pow2(t) < binary64::MANTISSA_LIMIT,
        r / pow2((s - t) as nat) <= u64::MAX,
    ensures
        block_data::threshold(k as int) == r / pow2((s - t) as nat),
{
    let unit = binary64::unit();
    let mask = MASK48 as nat;
    let x = (1074 - s) as nat;
    lemma_pow2_pos(1074);
    lemma_pow2_pos(x);
    lemma_pow2_pos(t);
    lemma_pow2_pos((s - t) as nat);
    binary64::lemma_small_int(k);
    binary64::lemma_small_int(5);
    binary64::lemma_small_int(mask);
    // The quotient.
    lemma_pow2_adds(s, x);
    assert(k * unit == k * pow2(s) * pow2(x)) by (nonlinear_arith)
        requires
            unit == pow2(s) * pow2(x),
    ;
    binary64::lemma_nearest_digits(k * pow2(s), 5, x);
    binary64::lemma_nearest_scale(k * unit, 5, unit);
    let quotient = m * pow2(x);
    assert(binary64::over(k * unit, 5 * unit) == quotient);
    // The product.
    let y = (x + t) as nat;
    lemma_pow2_adds(x, t);
    assert(quotient * (mask * unit) == m * mask * pow2(x) * unit) by (nonlinear_arith)
        requires
            quotient == m * pow2(x),
    ;
    binary64::lemma_nearest_scale(m * mask * pow2(x), 1, unit);
    assert(1 * unit == unit);
    arith::lemma_div_mod_scale((m * mask) as int, pow2(t) as int, pow2(x) as int);
    assert(1 * pow2(y) == pow2(t) * pow2(x)) by (nonlinear_arith)
        requires
            pow2(y) == pow2(x) * pow2(t),
    ;
    binary64::lemma_nearest_at(m * mask * pow2(x), 1, y);
    binary64::lemma_round_scale(m * mask, pow2(t), pow2(x));
    let product = r * pow2(y);
    assert(binary64::times(quotient, mask * unit) == product);
    // The integer part.
    lemma_pow2_adds((s - t) as nat, y);
    arith::lemma_div_mod_scale(r as int, pow2((s - t) as nat) as int, pow2(y) as int);
}

/// In the layers where bedrock is random, the threshold is an exact fifth of the largest draw
/// per layer: rounding does not show.
pub proof fn law_thresholds_are_exact(k: int)
    requires
        0 <= k <= 5,
    ensures
        block_data::threshold(k) == k * 0x3333_3333_3333,
        5 * 0x3333_3333_3333 == MASK48,
{
    lemma2_to64();
    lemma2_to64_rest();
    if k == 1 {
        lemma_threshold_digits(1, 55, 48, 7205759403792794, 7205759403792768);
        assert(7205759403792768nat / pow2(7) == 56294995342131);
    } else if k == 2 {
        lemma_threshold_digits(2, 54, 48, 7205759403792794, 7205759403792768);
        assert(7205759403792768nat / pow2(6) == 112589990684262);
    } else if k == 3 {
        lemma_threshold_digits(3, 53, 48, 5404319552844595, 5404319552844576);
        assert(5404319552844576nat / pow2(5) == 168884986026393);
    } else if k == 4 {
        lemma_threshold_digits(4, 53, 48, 7205759403792794, 7205759403792768);
        assert(7205759403792768nat / pow2(5) == 225179981368524);
    } else if k == 5 {
        lemma_threshold_digits(5, 52, 47, 4503599627370496, 9007199254740960);
        assert(9007199254740960nat / pow2(5) == 281474976710655);
    }
}

/// With no blocks, all seeds remain.
pub proof fn law_no_blocks_keep_all_seeds()
    ensures
        block_data::filter_power(Seq::empty()) == 0x1_0000_0000_0000,
{
    let unit = binary64::unit();
    let all = Binary64 { mantissa: binary64::LEAST_NORMAL, exponent: 1070 };
    lemma2_to64_rest();
    lemma_pow2_pos(1074);
    lemma_pow2_adds(52, 1070);
    lemma_pow2_adds(48, 1074);
    binary64::lemma_small_int(0x1_0000_0000_0000);
    assert(all@ == 0x1_0000_0000_0000 * unit);
    binary64::lemma_nearest_exact(all, unit);
    assert(unit * all@ == all@ * unit) by (nonlinear_arith);
    lemma_div_by_multiple(0x1_0000_0000_0000, unit as int);
}

/// One more block never raises the number of seeds that are expected to remain.
pub proof fn law_more_blocks_filter_more(filters: Seq<BlockFilter>, f: BlockFilter)
    requires
        forall|i: int| 0 <= i < filters.len() ==> (#[trigger] filters[i]).wf(),
        forall|i: int| 0 <= i < filters.len() ==> (#[trigger] filters[i]).satisfiable(),
        f.wf(),
        f.satisfiable(),
    ensures
        block_data::filter_power(filters.push(f)) <= block_data::filter_power(filters),
{
    let unit = binary64::unit();
    lemma_pow2_pos(1074);
    let before = block_data::passing_share(filters);
    let after = block_data::passing_share(filters.push(f));
    assert(filters.push(f).drop_last() == filters);
    let b = block_data::lemma_share_is_binary64(filters);
    let passing = block_data::lemma_passing_is_binary64(f);
    block_data::lemma_discarded_share(f);
    block_data::lemma_passing_step(b, passing, f.discarded(0));
    assert(after <= before);
    let c = binary64::of_int(0x1_0000_0000_0000);
    assert(after * c <= before * c) by (nonlinear_arith)
        requires
            after <= before,
    ;
    binary64::lemma_nearest_monotone(after * c, before * c, unit);
    lemma_div_is_ordered(
        binary64::times(after, c) as int,
        binary64::times(before, c) as int,
        unit as int,
    );
}

/// A quotient of at least some binary64 number is not rounded below it.
proof fn lemma_nearest_ge(n: nat, d: nat, b: Binary64)
    requires
        b.wf(),
        d > 0,
        b@ * d <= n,
    ensures
        b@ <= binary64::nearest(n, d),
{
    binary64::lemma_nearest_exact(b, d);
    binary64::lemma_nearest_monotone(b@ * d, n, d);
}

/// The number `1 - 2^-49`, times a power of two.
spec fn below_one(bits: nat) -> Binary64 {
    Binary64 { mantissa: 0x1F_FFFF_FFFF_FFF0, exponent: (1021 + bits) as u32 }
}

/// The number `2^-49`.
spec fn tiny() -> Binary64 {
    Binary64 { mantissa: binary64::LEAST_NORMAL, exponent: 973 }
}

proof fn lemma_below_one(bits: nat)
    requires
        bits < 64,
    ensures
        below_one(bits).wf(),
        tiny().wf(),
        below_one(0)@ + tiny()@ == binary64::unit(),
        below_one(bits)@ == below_one(0)@ * pow2(bits),
        tiny()@ * 0x2_0000_0000_0000 == binary64::unit(),
        tiny()@ > 0,
{
    let g = pow2(1025);
    lemma2_to64();
    lemma2_to64_rest();
    lemma_pow2_pos(1025);
    lemma_pow2_adds(52, 973);
    lemma_pow2_adds(4, 1021);
    lemma_pow2_adds(53, 1021);
    lemma_pow2_adds(49, 1025);
    lemma_pow2_adds(1021, bits);
    assert(0x1F_FFFF_FFFF_FFF0nat * pow2(1021) + g == binary64::unit()) by (nonlinear_arith)
        requires
            g == 16 * pow2(1021),
            binary64::unit() == 0x20_0000_0000_0000 * pow2(1021),
    ;
    assert(0x1F_FFFF_FFFF_FFF0nat * (pow2(1021) * pow2(bits)) == 0x1F_FFFF_FFFF_FFF0nat * pow2(1021)
        * pow2(bits)) by (nonlinear_arith);
}

/// A check on all but `lower_bits` bits discards seeds exactly if the filter can still make it, and
/// never all of the seeds that it decides at once.
pub proof fn law_discarded_share_tells_whether_a_check_follows(f: BlockFilter, lower_bits: u64)
    requires
        f.wf(),
        f.satisfiable(),
        lower_bits < 64,
        f.range_with(lower_bits) <= u64::MAX,
    ensures
        f.discarded(lower_bits) > 0 <==> f.narrows(lower_bits),
        f.discarded(lower_bits) < pow2(lower_bits as nat) * binary64::unit(),
{
    let unit = binary64::unit();
    let bits = lower_bits as nat;
    let count = pow2(bits);
    lemma_pow2_pos(1074);
    lemma_pow2_pos(bits);
    let room = block_data::jiggle_room(lower_bits);
    assert(room >= count - 1 && room == (count - 1) * 0x5_DEEC_E66D);
    let range = f.range_with(lower_bits) as nat;
    let possible = f.possible_range as nat;
    let a = binary64::of_int(range);
    let b = binary64::of_int(possible);
    let success = binary64::over(a, b);
    binary64::lemma_small_int(possible);
    assert(b > 0) by (nonlinear_arith)
        requires
            b == possible * unit,
            possible > 0,
            unit > 0,
    ;
    assert(count * unit > 0) by (nonlinear_arith)
        requires
            count > 0,
            unit > 0,
    ;
    if range < possible {
        let (low, g) = (below_one(0), tiny());
        lemma_below_one(0);
        lemma_below_one(bits);
        binary64::lemma_small_int(range);
        binary64::lemma_small_int(count);
        assert(a * unit == (range * unit) * unit && b == possible * unit);
        binary64::lemma_nearest_scale(range * unit, possible, unit);
        assert(success == binary64::nearest(range * unit, possible));
        lemma2_to64();
        assert(pow2(0) == 1);
        assert(range * unit <= low@ * possible) by (nonlinear_arith)
            requires
                range + 1 <= possible,
                low@ + g@ == unit,
                g@ * 0x2_0000_0000_0000 == unit,
                possible <= 0x1_0000_0000_0000,
        ;
        binary64::lemma_nearest_le(range * unit, possible, low);
        assert(g@ * possible <= range * unit) by (nonlinear_arith)
            requires
                range >= 1,
                g@ * 0x2_0000_0000_0000 == unit,
                possible <= 0x1_0000_0000_0000,
        ;
        lemma_nearest_ge(range * unit, possible, g);
        let rest = (unit - success) as nat;
        let fail = binary64::minus(unit, success);
        binary64::lemma_at_least_smallest(rest, 1);
        binary64::lemma_nearest_le(rest, 1, low);
        let scaled = fail * (count * unit);
        assert(scaled >= unit) by (nonlinear_arith)
            requires
                scaled == fail * (count * unit),
                fail >= 1,
                count >= 1,
        ;
        binary64::lemma_at_least_smallest(scaled, unit);
        let top = below_one(bits);
        assert(scaled <= top@ * unit) by (nonlinear_arith)
            requires
                scaled == fail * (count * unit),
                fail <= low@,
                top@ == low@ * count,
        ;
        binary64::lemma_nearest_le(scaled, unit, top);
        assert(top@ < count * unit) by (nonlinear_arith)
            requires
                top@ == low@ * count,
                low@ < unit,
                count > 0,
        ;
    } else {
        binary64::lemma_one();
        assert(possible * unit <= range * unit) by (nonlinear_arith)
            requires
                possible <= range,
        ;
        binary64::lemma_nearest_monotone(possible * unit, range * unit, 1);
        assert(unit * b <= a * unit) by (nonlinear_arith)
            requires
                b <= a,
        ;
        lemma_nearest_ge(a * unit, b, binary64::one_value());
    }
}

/// The steps in which discarded seeds are computed where a check narrows.
pub(crate) proof fn lemma_discarded_parts(f: BlockFilter, lower_bits: u64)
    requires
        f.wf(),
        f.narrows(lower_bits),
    ensures
        ({
            let unit = binary64::unit();
            let count = pow2(lower_bits as nat);
            let range = f.range_with(lower_bits) as nat;
            let success = binary64::nearest(range * unit, f.possible_range as nat);
            let fail = binary64::nearest((unit - success) as nat, 1);
            &&& 1 <= range < f.possible_range
            &&& success < unit
            &&& unit - success >= 0x20_0000_0000_0000
            &&& fail >= 0x20_0000_0000_0000
            &&& f.discarded(lower_bits) == binary64::nearest(fail * (count * unit), unit)
        }),
{
    let unit = binary64::unit();
    let bits = lower_bits as nat;
    let count = pow2(bits);
    lemma_pow2_pos(1074);
    lemma_pow2_pos(bits);
    let room = block_data::jiggle_room(lower_bits);
    assert(room >= count - 1 && room == (count - 1) * 0x5_DEEC_E66D);
    let range = f.range_with(lower_bits) as nat;
    let possible = f.possible_range as nat;
    let (low, g) = (below_one(0), tiny());
    lemma_below_one(0);
    lemma2_to64();
    lemma2_to64_rest();
    binary64::lemma_small_int(possible);
    binary64::lemma_small_int(range);
    binary64::lemma_small_int(count);
    binary64::lemma_nearest_scale(range * unit, possible, unit);
    let success = binary64::nearest(range * unit, possible);
    assert(range * unit <= low@ * possible) by (nonlinear_arith)
        requires
            range + 1 <= possible,
            low@ + g@ == unit,
            g@ * 0x2_0000_0000_0000 == unit,
            possible <= 0x1_0000_0000_0000,
    ;
    binary64::lemma_nearest_le(range * unit, possible, low);
    let big = Binary64 { mantissa: binary64::LEAST_NORMAL, exponent: 1 };
    assert(g@ >= 0x20_0000_0000_0000) by {
        lemma_pow2_adds(52, 973);
        lemma_pow2_strictly_increases(53, 1025);
    }
    lemma_pow2_unfold(1);
    assert(big@ == 0x20_0000_0000_0000);
    lemma_nearest_ge((unit - success) as nat, 1, big);
}

/// Without filters the whole share of seeds passes, and each further filter multiplies the share by
/// one minus what it discards, however many filters there are. The number of seeds that filters
/// leave is that share of 2^48, cut to an integer, with a relative error of at most 2^-53.
pub proof fn law_each_filter_multiplies_the_share(filters: Seq<BlockFilter>, f: BlockFilter)
    requires
        forall|i: int| 0 <= i < filters.len() ==> (#[trigger] filters[i]).wf(),
        forall|i: int| 0 <= i < filters.len() ==> (#[trigger] filters[i]).satisfiable(),
    ensures
        block_data::passing_share(Seq::empty()) == pow2(1074),
        block_data::passing_share(filters.push(f)) == binary64::times(
            block_data::passing_share(filters),
            binary64::minus(pow2(1074), f.discarded(0)),
        ),
        ({
            let share = block_data::passing_share(filters) * 0x1_0000_0000_0000;
            let left = block_data::filter_power(filters);
            &&& share <= 0x1_0000_0000_0000 * pow2(1074)
            &&& left * pow2(1074) * 0x20_0000_0000_0000 <= share * 0x20_0000_0000_0001
            &&& share * 0x1F_FFFF_FFFF_FFFF <= (left + 1) * pow2(1074) * 0x20_0000_0000_0000
        }),
{
    let unit = binary64::unit();
    lemma_pow2_pos(1074);
    assert(filters.push(f).drop_last() == filters);
    assert(filters.push(f).last() == f);
    let b = block_data::lemma_share_is_binary64(filters);
    let share = block_data::passing_share(filters);
    let n = share * 0x1_0000_0000_0000;
    binary64::lemma_small_int(0x1_0000_0000_0000);
    assert(share * (0x1_0000_0000_0000 * unit) == n * unit) by (nonlinear_arith)
        requires
            n == share * 0x1_0000_0000_0000,
    ;
    assert(1 * unit == unit);
    binary64::lemma_nearest_scale(n, 1, unit);
    let v = binary64::nearest(n, 1);
    assert(v * 0x20_0000_0000_0000 <= n * 0x20_0000_0000_0001 && n * 0x1F_FFFF_FFFF_FFFF <= v
        * 0x20_0000_0000_0000) by {
        binary64::lemma_rounding_error(n, 1);
        assert(n / 1 == n) by (nonlinear_arith);
        let gap = binary64::spacing(n);
        if n < binary64::MANTISSA_LIMIT {
            assert(gap == 1);
            assert(2 * (n - v) <= 1 && 2 * (v - n) <= 1);
        }
    }
    let left = v / unit;
    lemma_fundamental_div_mod(v as int, unit as int);
    assert(left * unit <= v <= (left + 1) * unit) by (nonlinear_arith)
        requires
            v == unit * left + v as int % unit as int,
            0 <= v as int % (unit as int) < unit,
    ;
    assert(left <= u64::MAX) by (nonlinear_arith)
        requires
            left * unit <= v,
            v * 0x20_0000_0000_0000 <= n * 0x20_0000_0000_0001,
            n <= 0x1_0000_0000_0000 * unit,
            unit > 0,
    ;
}

} // verus!
