//! Turning an observed block into a test on seeds, and estimating how much it filters.
//!
//! A block fixes a position, and the position fixes a 48-bit number that is combined with the
//! surface seed. One step of the generator turns the result into a 48-bit draw, and the block is
//! bedrock or not as the draw falls above or below a threshold that depends on the layer.
use vstd::arithmetic::div_mod::*;
use vstd::arithmetic::power2::*;
use vstd::prelude::*;

use crate::arith;
use crate::binary64;
use crate::binary64::Binary64;
use crate::java;
use crate::java::MASK48;
use crate::raw_data::block::Block;
use crate::raw_data::block_type::BlockType;
use crate::raw_data::modes::BedrockGeneration;

verus! {

/// The coordinates of a position mixed into one signed number.
pub open spec fn position_mix(x: i32, y: i32, z: i32) -> i64 {
    (x.wrapping_mul(3129871) as i64 ^ (z as i64).wrapping_mul(116129781)) ^ y as i64
}

/// The upper 48 bits of the 64-bit hash of a position.
pub open spec fn position_hash(x: i32, y: i32, z: i32) -> u64 {
    let p = position_mix(x, y, z) as int;
    (((p * p * 42317861 + p * 11) % 0x1_0000_0000_0000_0000) / 0x1_0000) as u64
}

/// The threshold of a layer in fifths of the range of draws. It falls by one per layer, from five
/// in layer 0 of the floor and in layer 122 of the roof.
pub open spec fn fifths(layer: int) -> int {
    if layer > 5 {
        127 - layer
    } else {
        5 - layer
    }
}

/// `k / 5` of the largest draw, in binary64 arithmetic.
pub open spec fn threshold(k: int) -> u64 {
    if k <= 0 {
        0
    } else {
        binary64::to_int(
            binary64::times(
                binary64::over(binary64::of_int(k as nat), binary64::of_int(5)),
                binary64::of_int(MASK48 as nat),
            ),
        ) as u64
    }
}

/// The least and the greatest draw that explain the block.
pub open spec fn draw_bounds(layer: int, block_type: BlockType) -> (u64, u64) {
    let t = threshold(fifths(layer));
    if (layer > 5) == (block_type == BlockType::BEDROCK) {
        (t, MASK48)
    } else {
        (0, t)
    }
}

/// The height that enters the hash: Paper draws once for all layers of a surface.
pub open spec fn hash_height(y: i32, mode: BedrockGeneration) -> i32 {
    if mode == BedrockGeneration::Paper1_18 {
        if y > 5 {
            122
        } else {
            0
        }
    } else {
        y
    }
}

/// The height can be measured from the floor without leaving the range of its type.
pub open spec fn layer_in_range(y: i32) -> bool {
    y >= -0x7FFF_FFFA
}

/// The filter for a block.
pub open spec fn filter_of(block: Block, mode: BedrockGeneration) -> BlockFilter {
    let bounds = draw_bounds(block.y as int, block.block_type);
    BlockFilter {
        pos_hash: java::scrambled(position_hash(block.x, hash_height(block.y, mode), block.z)),
        lower_bound: bounds.0,
        upper_bound: bounds.1,
        possible_range: MASK48,
    }
}

/// How far the draws of seeds that agree but in `lower_bits` low bits can lie apart.
pub open spec fn jiggle_room(lower_bits: u64) -> int {
    (pow2(lower_bits as nat) - 1) * java::multiplier()
}

/// What one block says about the seed of its surface.
#[derive(Clone, Copy, Debug, PartialEq, Eq, Structural)]
pub struct BlockFilter {
    pub pos_hash: u64,
    pub lower_bound: u64,
    pub upper_bound: u64,
    pub possible_range: u64,
}

impl BlockFilter {
    /// The position hash has 48 bits, one of the two bounds is trivial, and the range is one of
    /// 48-bit draws.
    pub open spec fn wf(self) -> bool {
        &&& self.pos_hash <= MASK48
        &&& self.lower_bound == 0 || self.upper_bound == MASK48
        &&& 0 < self.possible_range <= MASK48
    }

    /// Some draw explains the block.
    pub open spec fn satisfiable(self) -> bool {
        self.lower_bound < self.upper_bound
    }

    /// The range left when the low bits of the seed are unknown.
    pub open spec fn range_with(self, lower_bits: u64) -> int {
        jiggle_room(lower_bits) + self.upper_bound - self.lower_bound
    }

    /// A check on all but `lower_bits` bits narrows the range further.
    pub open spec fn narrows(self, lower_bits: u64) -> bool {
        &&& lower_bits < 64
        &&& self.satisfiable()
        &&& self.range_with(lower_bits) < self.possible_range
    }

    /// The draw that the filter sees for a seed.
    pub open spec fn draw(self, seed: u64) -> int {
        ((seed ^ self.pos_hash) * java::multiplier()) % java::states()
    }

    /// The share of seeds that a check on all but `lower_bits` bits rejects, times the number of
    /// seeds that it decides at once, as a binary64 number.
    pub open spec fn discarded(self, lower_bits: u64) -> nat {
        let success = binary64::over(
            binary64::of_int(self.range_with(lower_bits) as nat),
            binary64::of_int(self.possible_range as nat),
        );
        if success >= binary64::unit() {
            0
        } else {
            binary64::times(
                binary64::minus(binary64::unit(), success),
                binary64::of_int(pow2(lower_bits as nat)),
            )
        }
    }

    /// The check that the filter makes on all but `lower_bits` bits.
    pub open spec fn check_of(self, lower_bits: u64) -> CheckObject {
        CheckObject {
            pos_hash: self.pos_hash & (MASK48 - (pow2(lower_bits as nat) - 1)) as u64,
            condition: (MASK48 - self.range_with(lower_bits)) as u64,
            offset: (MASK48 - self.upper_bound) as u64,
        }
    }

    /// The filter for a block.
    pub fn from(b: &Block, mode: BedrockGeneration) -> (r: BlockFilter)
        requires
            layer_in_range(b.y),
        ensures
            r == filter_of(*b, mode),
            r.wf(),
    {
        Self::new(b.x, b.y, b.z, b.block_type, mode)
    }

    pub fn new(x: i32, y: i32, z: i32, block_type: BlockType, mode: BedrockGeneration) -> (r: Self)
        requires
            layer_in_range(y),
        ensures
            r == filter_of(Block { x, y, z, block_type }, mode),
            r.wf(),
    {
        let (lower_bound, upper_bound): (u64, u64) = Self::bounds(y, block_type);
        let height: i32 = if mode == BedrockGeneration::Paper1_18 {
            if y > 5 {
                122
            } else {
                0
            }
        } else {
            y
        };
        let hash: u64 = Self::hashcode(x, height, z);
        proof {
            java::lemma_scramble(hash);
        }
        let pos_hash: u64 = hash ^ java::lcg_multiplier();
        BlockFilter { pos_hash, lower_bound, upper_bound, possible_range: MASK48 }
    }

    /// The hash of a position.
    pub fn hashcode(x: i32, y: i32, z: i32) -> (r: u64)
        ensures
            r == position_hash(x, y, z),
            r <= MASK48,
    {
        let p: i64 = (x.wrapping_mul(3129871) as i64 ^ (z as i64).wrapping_mul(116129781)) ^ y as i64;
        let square: i64 = p.wrapping_mul(p);
        let scaled: i64 = square.wrapping_mul(42317861);
        let linear: i64 = p.wrapping_mul(11);
        let hash: i64 = scaled.wrapping_add(linear);
        proof {
            let m = 0x1_0000_0000_0000_0000int;
            lemma_crop(p * p);
            lemma_crop(square * 42317861);
            lemma_crop(p * 11);
            lemma_mul_mod_noop_left(square as int, 42317861, m);
            lemma_mul_mod_noop_left(p * p, 42317861, m);
            lemma_add_mod_noop(scaled as int, linear as int, m);
            lemma_add_mod_noop(p * p * 42317861, p * 11, m);
            lemma_wrapped_sum(scaled as int + linear as int);
            arith::lemma_cast_u64(hash);
        }
        let word: u64 = hash as u64;
        proof {
            assert(word >> 16 == word / 0x1_0000 && word >> 16 <= 0xFFFF_FFFF_FFFFu64) by (bit_vector);
        }
        word >> 16
    }

    /// The draws that explain a block of a layer.
    pub fn bounds(layer: i32, block_type: BlockType) -> (r: (u64, u64))
        requires
            layer_in_range(layer),
        ensures
            r == draw_bounds(layer as int, block_type),
    {
        let k: i32 = if layer > 5 {
            127 - layer
        } else {
            5 - layer
        };
        let bound: u64 = Self::threshold_of(k);
        if layer > 5 {
            match block_type {
                BlockType::BEDROCK => (bound, MASK48),
                BlockType::OTHER => (0, bound),
            }
        } else {
            match block_type {
                BlockType::BEDROCK => (0, bound),
                BlockType::OTHER => (bound, MASK48),
            }
        }
    }

    /// Makes the check on all but the `lower_bits` low bits of a seed, and narrows the range of
    /// draws to what passes it.
    pub fn create_check(&mut self, lower_bits: u64) -> (r: CheckObject)
        requires
            old(self).wf(),
            old(self).narrows(lower_bits),
        ensures
            r == old(self).check_of(lower_bits),
            *final(self) == (BlockFilter {
                possible_range: old(self).range_with(lower_bits) as u64,
                ..*old(self)
            }),
            final(self).wf(),
    {
        let lower_bits_mask: u64 = bit_mask(lower_bits);
        proof {
            lemma_narrow_mask(*self, lower_bits);
        }
        self.check_with_bits(lower_bits);
        CheckObject::new(self.pos_hash, self.lower_bound, self.upper_bound, lower_bits_mask)
    }

    /// Whether a check on all but `lower_bits` bits narrows the range further.
    pub fn allows_check(&self, lower_bits: u64) -> (b: bool)
        requires
            lower_bits < 64,
        ensures
            b == self.narrows(lower_bits),
    {
        if self.upper_bound <= self.lower_bound {
            return false;
        }
        let mask: u64 = bit_mask(lower_bits);
        let m: u64 = java::lcg_multiplier();
        proof {
            lemma_mask_room(lower_bits);
        }
        let room: u128 = mask as u128 * m as u128;
        room + (self.bound() as u128) < self.possible_range as u128
    }

    /// How many seeds a check on all but `lower_bits` bits filters out.
    pub fn discarded_seeds(&self, lower_bits: u64) -> (r: Binary64)
        requires
            self.wf(),
            self.satisfiable(),
            lower_bits < 64,
            self.range_with(lower_bits) <= u64::MAX,
        ensures
            r.wf(),
            r@ == self.discarded(lower_bits),
    {
        let lower_bits_mask: u64 = bit_mask(lower_bits);
        proof {
            lemma_mask_room(lower_bits);
            binary64::lemma_one();
        }
        let bound: u64 = self.bound() + lower_bits_mask * java::lcg_multiplier();
        let success_chance: Binary64 = Binary64::from_u64(bound).div(
            Binary64::from_u64(self.possible_range),
        );
        if !success_chance.less_than(Binary64::one()) {
            return Binary64 { mantissa: 0, exponent: 0 };
        }
        let fail_chance: Binary64 = Binary64::one().sub(success_chance);
        proof {
            binary64::lemma_nearest_le(
                (binary64::unit() - success_chance@) as nat,
                1,
                binary64::one_value(),
            );
            binary64::lemma_at_most_one(fail_chance);
        }
        fail_chance.mul(Binary64::from_u64(lower_bits_mask + 1))
    }

    /// Records that a check on all but `lower_bits` bits was made. The more bits are unknown, the
    /// less a check can add.
    fn check_with_bits(&mut self, lower_bits: u64)
        requires
            old(self).wf(),
            old(self).narrows(lower_bits),
        ensures
            *final(self) == (BlockFilter {
                possible_range: old(self).range_with(lower_bits) as u64,
                ..*old(self)
            }),
            final(self).wf(),
    {
        let lower_bits_mask: u64 = bit_mask(lower_bits);
        proof {
            lemma_mask_room(lower_bits);
        }
        let jiggle_room: u64 = lower_bits_mask * java::lcg_multiplier();
        let new_range: u64 = jiggle_room + self.bound();
        self.possible_range = new_range;
    }

    /// The number of draws that explain the block.
    pub fn bound(&self) -> (r: u64)
        requires
            self.satisfiable(),
        ensures
            r == self.upper_bound - self.lower_bound,
    {
        self.upper_bound - self.lower_bound
    }

    /// `k / 5` of the largest draw.
    fn threshold_of(k: i32) -> (r: u64)
        ensures
            r == threshold(k as int),
    {
        if k <= 0 {
            return 0;
        }
        let share: Binary64 = Binary64::from_u64(k as u64).div(Binary64::from_u64(5));
        share.mul(Binary64::from_u64(MASK48)).to_u64()
    }
}

/// The filter of a block is well formed, and its bounds do not depend on the generation.
pub(crate) proof fn lemma_filter_wf(b: Block, mode: BedrockGeneration)
    ensures
        filter_of(b, mode).wf(),
        filter_of(b, mode).lower_bound == filter_of(b, BedrockGeneration::Normal).lower_bound,
        filter_of(b, mode).upper_bound == filter_of(b, BedrockGeneration::Normal).upper_bound,
{
    let p = position_mix(b.x, hash_height(b.y, mode), b.z) as int;
    let h = (p * p * 42317861 + p * 11) % 0x1_0000_0000_0000_0000;
    assert(0 <= h / 0x1_0000 < 0x1_0000_0000_0000);
    java::lemma_scramble(position_hash(b.x, hash_height(b.y, mode), b.z));
}

/// Cropping to a signed 64-bit number keeps the remainder by 2^64.
proof fn lemma_crop(v: int)
    ensures
        vstd::wrapping::i64_specs::signed_crop(v) as int % 0x1_0000_0000_0000_0000 == v
            % 0x1_0000_0000_0000_0000,
{
    let m = 0x1_0000_0000_0000_0000int;
    lemma_mod_twice(v, m);
    lemma_mod_sub_multiples_vanish(v % m, m);
}

/// The same for a sum that is one range off at most.
proof fn lemma_wrapped_sum(v: int)
    ensures
        (v - 0x1_0000_0000_0000_0000) % 0x1_0000_0000_0000_0000 == v % 0x1_0000_0000_0000_0000,
        (v + 0x1_0000_0000_0000_0000) % 0x1_0000_0000_0000_0000 == v % 0x1_0000_0000_0000_0000,
{
    let m = 0x1_0000_0000_0000_0000int;
    lemma_mod_sub_multiples_vanish(v, m);
    lemma_mod_add_multiples_vanish(v, m);
}

/// A test on the bits of a surface seed.
#[derive(Clone, Copy, Debug, PartialEq, Eq, Structural)]
pub struct CheckObject {
    pub pos_hash: u64,
    pub condition: u64,
    pub offset: u64,
}

/// The result of a check in terms of numbers.
pub open spec fn check_fails(check: CheckObject, upper_bits: u64) -> bool {
    ((upper_bits ^ check.pos_hash) * java::multiplier() + check.offset) % java::states()
        < check.condition
}

impl Default for CheckObject {
    /// A check that every seed passes.
    fn default() -> (r: Self)
        ensures
            r == (CheckObject { pos_hash: 0, condition: 0, offset: 0 }),
    {
        CheckObject { pos_hash: 0, condition: 0, offset: 0 }
    }
}

impl CheckObject {
    fn new(pos_hash: u64, lower_bound: u64, upper_bound: u64, lower_bit_mask: u64) -> (r: Self)
        requires
            upper_bound <= MASK48,
            lower_bit_mask <= MASK48,
            lower_bit_mask * java::multiplier() <= u64::MAX,
        ensures
            r.pos_hash == pos_hash & (MASK48 - lower_bit_mask) as u64,
            r.offset == MASK48 - upper_bound,
            r.condition == (lower_bound + MASK48 - upper_bound - lower_bit_mask
                * java::multiplier()) % 0x1_0000_0000_0000_0000,
    {
        let offset: u64 = MASK48 - upper_bound;
        let room: u64 = lower_bit_mask * java::lcg_multiplier();
        let sum: u64 = lower_bound.wrapping_add(offset);
        let condition: u64 = sum.wrapping_sub(room);
        proof {
            let m = 0x1_0000_0000_0000_0000int;
            lemma_wrapped_sum(lower_bound + offset);
            lemma_wrapped_sum(sum - room);
            lemma_sub_mod_noop(lower_bound + offset, room as int, m);
            lemma_sub_mod_noop(sum as int, room as int, m);
            lemma_small_mod(sum as nat, m as nat);
            lemma_small_mod(condition as nat, m as nat);
        }
        CheckObject { pos_hash: pos_hash & (MASK48 - lower_bit_mask), condition, offset }
    }

    /// Whether a seed fails the check and is to be rejected.
    pub fn check(&self, upper_bits: u64) -> (b: bool)
        ensures
            b == check_fails(*self, upper_bits),
    {
        let mixed: u64 = upper_bits ^ self.pos_hash;
        let product: u64 = mixed.wrapping_mul(java::lcg_multiplier());
        let sum: u64 = product.wrapping_add(self.offset);
        proof {
            let m = 0x1_0000_0000_0000_0000int;
            let exact = mixed * java::multiplier();
            lemma_wrapped_sum(product + self.offset);
            lemma_small_mod(sum as nat, m as nat);
            lemma_add_mod_noop(exact, self.offset as int, m);
            lemma_add_mod_noop(product as int, self.offset as int, m);
            lemma_mod_twice(exact, m);
            java::lemma_low48_of_64(exact + self.offset);
            java::lemma_mask48(sum);
        }
        (sum & MASK48) < self.condition
    }
}

/// The mask of the low bits.
fn bit_mask(bits: u64) -> (r: u64)
    requires
        bits < 64,
    ensures
        r == pow2(bits as nat) - 1,
{
    proof {
        lemma2_to64();
        lemma2_to64_rest();
        arith::lemma_pow2_le(bits as nat, 63);
        lemma_pow2_pos(bits as nat);
        vstd::bits::lemma_u64_shl_is_mul(1, bits);
    }
    (1u64 << bits) - 1
}

/// The room that unknown bits leave grows with the mask.
proof fn lemma_mask_room(bits: u64)
    requires
        bits < 64,
    ensures
        pow2(bits as nat) >= 1,
        jiggle_room(bits) >= pow2(bits as nat) - 1,
        jiggle_room(bits) >= 0,
        jiggle_room(bits) == (pow2(bits as nat) - 1) * 0x5_DEEC_E66D,
{
    lemma_pow2_pos(bits as nat);
}

/// A check that narrows the range leaves fewer than 48 bits unknown.
proof fn lemma_narrow_mask(f: BlockFilter, bits: u64)
    requires
        f.wf(),
        f.narrows(bits),
    ensures
        pow2(bits as nat) - 1 <= MASK48,
        f.upper_bound <= MASK48,
        (MASK48 - f.range_with(bits)) % 0x1_0000_0000_0000_0000 == MASK48 - f.range_with(bits),
{
    lemma_mask_room(bits);
    lemma_small_mod((MASK48 - f.range_with(bits)) as nat, 0x1_0000_0000_0000_0000);
}

/// The product of the shares of seeds that the filters let pass, as a binary64 number.
pub open spec fn passing_share(filters: Seq<BlockFilter>) -> nat
    decreases filters.len(),
{
    if filters.len() == 0 {
        binary64::unit()
    } else {
        binary64::times(
            passing_share(filters.drop_last()),
            binary64::minus(binary64::unit(), filters.last().discarded(0)),
        )
    }
}

/// The number of seeds of 48 bits that the filters let pass if they act independently.
pub open spec fn filter_power(filters: Seq<BlockFilter>) -> u64 {
    binary64::to_int(
        binary64::times(passing_share(filters), binary64::of_int(0x1_0000_0000_0000)),
    ) as u64
}

/// The number of seeds that a set of blocks is expected to leave. The lower it is, the more the
/// blocks filter.
pub fn get_filter_power(filters: &[BlockFilter]) -> (r: u64)
    requires
        forall|i: int| 0 <= i < filters@.len() ==> (#[trigger] filters@[i]).wf(),
        forall|i: int| 0 <= i < filters@.len() ==> (#[trigger] filters@[i]).satisfiable(),
    ensures
        r == filter_power(filters@),
{
    let mut product: Binary64 = Binary64::one();
    let mut i: usize = 0;
    while i < filters.len()
        invariant
            i <= filters@.len(),
            product.wf(),
            product@ == passing_share(filters@.take(i as int)),
            product@ <= binary64::unit(),
            forall|i: int| 0 <= i < filters@.len() ==> (#[trigger] filters@[i]).wf(),
            forall|i: int| 0 <= i < filters@.len() ==> (#[trigger] filters@[i]).satisfiable(),
        decreases filters@.len() - i,
    {
        proof {
            lemma2_to64();
        }
        let discarded: Binary64 = filters[i].discarded_seeds(0);
        proof {
            lemma_discarded_share(filters@[i as int]);
            binary64::lemma_one();
        }
        let passing: Binary64 = Binary64::one().sub(discarded);
        proof {
            lemma_passing_step(product, passing, discarded@);
            binary64::lemma_at_most_one(product);
            binary64::lemma_at_most_one(passing);
            let next = filters@.take(i + 1);
            assert(next.drop_last() == filters@.take(i as int));
            assert(next.last() == filters@[i as int]);
        }
        product = product.mul(passing);
        i += 1;
    }
    proof {
        assert(filters@.take(i as int) == filters@);
        binary64::lemma_at_most_one(product);
    }
    product.mul(Binary64::from_u64(0x1_0000_0000_0000)).to_u64()
}

/// The share of seeds that a filter discards is at most one.
pub(crate) proof fn lemma_discarded_share(f: BlockFilter)
    requires
        f.wf(),
        f.satisfiable(),
    ensures
        f.discarded(0) <= binary64::unit(),
{
    let one = binary64::one_value();
    binary64::lemma_one();
    lemma2_to64();
    lemma_pow2_pos(1074);
    binary64::lemma_small_int(1);
    let success = binary64::over(
        binary64::of_int(f.range_with(0) as nat),
        binary64::of_int(f.possible_range as nat),
    );
    if success < binary64::unit() {
        let rest = (binary64::unit() - success) as nat;
        binary64::lemma_nearest_le(rest, 1, one);
        let fail = binary64::minus(binary64::unit(), success);
        assert(fail * (1 * binary64::unit()) <= one@ * binary64::unit()) by (nonlinear_arith)
            requires
                fail <= one@,
        ;
        binary64::lemma_nearest_le(fail * (1 * binary64::unit()), binary64::unit(), one);
    }
}

/// Multiplying by a share of at most one does not raise a product.
pub(crate) proof fn lemma_passing_step(product: Binary64, passing: Binary64, discarded: nat)
    requires
        product.wf(),
        passing.wf(),
        discarded <= binary64::unit(),
        passing@ == binary64::minus(binary64::unit(), discarded),
    ensures
        passing@ <= binary64::unit(),
        binary64::times(product@, passing@) <= product@,
{
    binary64::lemma_one();
    lemma_pow2_pos(1074);
    binary64::lemma_nearest_le((binary64::unit() - discarded) as nat, 1, binary64::one_value());
    assert(product@ * passing@ <= product@ * binary64::unit()) by (nonlinear_arith)
        requires
            passing@ <= binary64::unit(),
    ;
    binary64::lemma_nearest_le(product@ * passing@, binary64::unit(), product);
}

/// The share of seeds that a filter lets pass, as a representation.
pub(crate) proof fn lemma_passing_is_binary64(f: BlockFilter) -> (b: Binary64)
    requires
        f.wf(),
        f.satisfiable(),
    ensures
        b.wf(),
        b@ == binary64::minus(binary64::unit(), f.discarded(0)),
{
    lemma_discarded_share(f);
    lemma_pow2_strictly_increases(1074, 2000);
    let n = (binary64::unit() - f.discarded(0)) as nat;
    assert(n / 1 == n) by (nonlinear_arith);
    binary64::lemma_nearest_is_binary64(n, 1)
}

/// The share of seeds that several filters let pass, as a representation.
pub(crate) proof fn lemma_share_is_binary64(filters: Seq<BlockFilter>) -> (b: Binary64)
    requires
        forall|i: int| 0 <= i < filters.len() ==> (#[trigger] filters[i]).wf(),
        forall|i: int| 0 <= i < filters.len() ==> (#[trigger] filters[i]).satisfiable(),
    ensures
        b.wf(),
        b@ == passing_share(filters),
        b@ <= binary64::unit(),
    decreases filters.len(),
{
    binary64::lemma_one();
    if filters.len() == 0 {
        binary64::one_value()
    } else {
        let rest = filters.drop_last();
        assert forall|i: int| 0 <= i < rest.len() implies (#[trigger] rest[i]).wf()
            && rest[i].satisfiable() by {
            assert(rest[i] == filters[i]);
        }
        let a = lemma_share_is_binary64(rest);
        let f = filters.last();
        assert(f == filters[filters.len() - 1]);
        let p = lemma_passing_is_binary64(f);
        lemma_discarded_share(f);
        lemma_passing_step(a, p, f.discarded(0));
        let unit = binary64::unit();
        lemma_pow2_pos(1074);
        lemma_pow2_strictly_increases(1074, 2000);
        assert(a@ * p@ <= unit * unit) by (nonlinear_arith)
            requires
                a@ <= unit,
                p@ <= unit,
        ;
        lemma_div_is_ordered((a@ * p@) as int, (unit * unit) as int, unit as int);
        lemma_div_by_multiple(unit as int, unit as int);
        binary64::lemma_nearest_is_binary64(a@ * p@, unit)
    }
}

} // verus!
