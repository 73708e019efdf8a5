use bedrock_cracker::binary64::Binary64;
use bedrock_cracker::block_data::get_filter_power;
use bedrock_cracker::block_data::BlockFilter;
use bedrock_cracker::block_data::CheckObject;
use bedrock_cracker::java::MASK48;
use bedrock_cracker::raw_data::block::Block;
use bedrock_cracker::raw_data::block_type::BlockType;
use bedrock_cracker::raw_data::modes::BedrockGeneration;
use java_random::JAVA_LCG;

fn number(b: Binary64) -> f64 {
    b.mantissa as f64 * 2f64.powi(b.exponent as i32 - 1074)
}

#[test]
fn test_hashcode() {
    let block = BlockFilter::new(-98, 4, -469, BlockType::BEDROCK, BedrockGeneration::Normal);
    assert_eq!(block.pos_hash, 99261249361405 ^ JAVA_LCG.multiplier)
}

#[test]
fn test_filler_check() {
    assert!(!CheckObject::default().check(MASK48));
    assert!(!CheckObject::default().check(0));
    assert!(!CheckObject::default().check(12345));
}

#[test]
fn test_check_semantics() {
    let mut filter = BlockFilter::new(0, 4, 0, BlockType::BEDROCK, BedrockGeneration::Normal);
    let check = filter.create_check(0);

    assert!(check.condition > 0, "Condition should be positive");
    assert!(check.offset > 0, "Offset should be positive for bedrock at y=4");
}

#[test]
fn test_bounds_floor_bedrock() {
    let (lower, upper) = BlockFilter::bounds(4, BlockType::BEDROCK);
    assert_eq!(lower, 0);
    let expected_upper = (0.2 * MASK48 as f64) as u64;
    assert!(
        (upper as i64 - expected_upper as i64).abs() < 2,
        "upper={} expected={}",
        upper,
        expected_upper
    );
}

#[test]
fn test_bounds_floor_other() {
    let (lower, upper) = BlockFilter::bounds(4, BlockType::OTHER);
    let expected_lower = (0.2 * MASK48 as f64) as u64;
    assert!((lower as i64 - expected_lower as i64).abs() < 2);
    assert_eq!(upper, MASK48 as u64);
}

#[test]
fn test_bounds_roof_bedrock() {
    let (lower, upper) = BlockFilter::bounds(123, BlockType::BEDROCK);
    let expected_lower = (0.8 * MASK48 as f64) as u64;
    assert!((lower as i64 - expected_lower as i64).abs() < 2);
    assert_eq!(upper, MASK48 as u64);
}

/// The bounds in the floating-point arithmetic of the machine.
fn machine_bounds(layer: i32, block_type: BlockType) -> (u64, u64) {
    let mut lower = 0.0;
    let mut upper = 1.0;
    let roof = layer > 5;
    let bound = (5 - if roof { layer - 122 } else { layer }) as f64 / 5.0;
    if roof == (block_type == BlockType::BEDROCK) {
        lower = bound;
    } else {
        upper = bound;
    }
    ((lower * MASK48 as f64) as u64, (upper * MASK48 as f64) as u64)
}

#[test]
fn bounds_agree_with_the_machine() {
    for layer in -300..400 {
        for block_type in [BlockType::BEDROCK, BlockType::OTHER] {
            assert_eq!(BlockFilter::bounds(layer, block_type), machine_bounds(layer, block_type));
        }
    }
    for layer in [-2147483642, -1000000007, i32::MAX, 65536, -99999] {
        for block_type in [BlockType::BEDROCK, BlockType::OTHER] {
            assert_eq!(BlockFilter::bounds(layer, block_type), machine_bounds(layer, block_type));
        }
    }
}

#[test]
fn thresholds_are_fifths_of_the_largest_draw() {
    for layer in 0..=5 {
        let fifths = 5 - layer as u64;
        assert_eq!(
            BlockFilter::bounds(layer, BlockType::BEDROCK),
            (0, fifths * 0x3333_3333_3333)
        );
    }
    assert_eq!(BlockFilter::bounds(4, BlockType::BEDROCK), (0, 56294995342131));
    assert_eq!(BlockFilter::bounds(126, BlockType::OTHER), (0, 56294995342131));
}

fn random_layers() -> Vec<i32> {
    vec![1, 2, 3, 4, 123, 124, 125, 126]
}

/// The number that decides whether a block is bedrock.
fn draw(f: &BlockFilter, seed: u64) -> u64 {
    (seed ^ f.pos_hash).wrapping_mul(JAVA_LCG.multiplier) & MASK48
}

#[test]
fn full_check_is_the_interval() {
    let mut seed: u64 = 42;
    for y in random_layers() {
        for block_type in [BlockType::BEDROCK, BlockType::OTHER] {
            let f = BlockFilter::new(7, y, -9, block_type, BedrockGeneration::Normal);
            let check = f.clone().create_check(0);
            for _ in 0..500 {
                seed = seed.wrapping_mul(6364136223846793005).wrapping_add(1442695040888963407);
                let s = seed >> 16;
                let inside = f.lower_bound <= draw(&f, s) && draw(&f, s) <= f.upper_bound;
                assert_eq!(!check.check(s), inside);
            }
        }
    }
}

#[test]
fn partial_check_keeps_candidates() {
    let mut seed: u64 = 99;
    let mut rejected = 0;
    for y in random_layers() {
        let f = BlockFilter::new(-31, y, 64, BlockType::BEDROCK, BedrockGeneration::Normal);
        if !f.allows_check(12) {
            continue;
        }
        let coarse = f.clone().create_check(12);
        let full = f.clone().create_check(0);
        for _ in 0..2000 {
            seed = seed.wrapping_mul(6364136223846793005).wrapping_add(1442695040888963407);
            let s = seed >> 16;
            if coarse.check(s & !0xFFF) {
                rejected += 1;
                assert!(full.check(s));
            }
        }
    }
    assert!(rejected > 0);
}

#[test]
fn only_finer_checks_follow() {
    let mut f = BlockFilter::new(0, 4, 0, BlockType::BEDROCK, BedrockGeneration::Normal);
    assert!(f.allows_check(12));
    f.create_check(12);
    assert!(!f.allows_check(12));
    assert!(!f.allows_check(13));
    assert!(f.allows_check(11));
    f.create_check(0);
    assert_eq!(f.possible_range, f.upper_bound - f.lower_bound);
    assert!(!f.allows_check(0));
}

#[test]
fn create_check_exact_values() {
    let mut f = BlockFilter::new(0, 4, 0, BlockType::BEDROCK, BedrockGeneration::Normal);
    let check = f.create_check(0);
    assert_eq!(check.offset, MASK48 - 56294995342131);
    assert_eq!(check.condition, MASK48 - 56294995342131);
    assert_eq!(check.pos_hash, f.pos_hash);
    let mut g = BlockFilter::new(3, 1, 5, BlockType::OTHER, BedrockGeneration::Normal);
    let coarse = g.create_check(4);
    let room = 15 * JAVA_LCG.multiplier;
    assert_eq!(coarse.offset, 0);
    assert_eq!(coarse.condition, 4 * 56294995342131 - room);
    assert_eq!(coarse.pos_hash, g.pos_hash & !15);
}

#[test]
fn bedrock_or_not() {
    for seed in [0u64, 1, 77777777, MASK48, 123456789012345] {
        for y in random_layers() {
            let yes = BlockFilter::new(4, y, 4, BlockType::BEDROCK, BedrockGeneration::Normal)
                .create_check(0);
            let no = BlockFilter::new(4, y, 4, BlockType::OTHER, BedrockGeneration::Normal)
                .create_check(0);
            assert_ne!(yes.check(seed), no.check(seed));
        }
    }
}

#[test]
fn paper_shares_the_draw() {
    let a = BlockFilter::new(4, 1, 4, BlockType::BEDROCK, BedrockGeneration::Paper1_18);
    let b = BlockFilter::new(4, 4, 4, BlockType::OTHER, BedrockGeneration::Paper1_18);
    let c = BlockFilter::new(4, 124, 4, BlockType::OTHER, BedrockGeneration::Paper1_18);
    assert_eq!(a.pos_hash, b.pos_hash);
    assert_ne!(a.pos_hash, c.pos_hash);
    assert_eq!(c.pos_hash, BlockFilter::hashcode(4, 122, 4) ^ JAVA_LCG.multiplier);
}

/// The estimate in the floating-point arithmetic of the machine.
fn machine_discarded(f: &BlockFilter, lower_bits: u64) -> f64 {
    let mask = (1u64 << lower_bits) - 1;
    let bound = f.bound() + mask * JAVA_LCG.multiplier;
    let success = bound as f64 / f.possible_range as f64;
    let fail = 1.0 - success;
    if fail <= 0.0 {
        return 0.0;
    }
    fail * (1u64 << lower_bits) as f64
}

fn machine_power(filters: &[BlockFilter]) -> u64 {
    let share: f64 = filters.iter().map(|f| 1.0 - machine_discarded(f, 0)).product();
    (share * (1u64 << 48) as f64) as u64
}

#[test]
fn estimates_agree_with_the_machine() {
    let mut filters = vec![];
    for y in random_layers() {
        for block_type in [BlockType::BEDROCK, BlockType::OTHER] {
            let f = BlockFilter::new(1, y, 1, block_type, BedrockGeneration::Normal);
            for bits in 0..13 {
                assert_eq!(number(f.discarded_seeds(bits)), machine_discarded(&f, bits));
            }
            let mut g = f.clone();
            if g.allows_check(12) {
                g.create_check(12);
                for bits in 0..13 {
                    assert_eq!(number(g.discarded_seeds(bits)), machine_discarded(&g, bits));
                }
            }
        }
    }
    for n in 0..80 {
        assert_eq!(get_filter_power(&filters), machine_power(&filters));
        let y = random_layers()[n % 8];
        let block_type = if n % 3 == 0 { BlockType::OTHER } else { BlockType::BEDROCK };
        filters.push(BlockFilter::from(
            &Block::new(n as i32, y, -3, block_type),
            BedrockGeneration::Normal,
        ));
    }
}

#[test]
fn no_blocks_keep_all_seeds() {
    assert_eq!(get_filter_power(&[]), 1 << 48);
}

#[test]
fn more_blocks_filter_more() {
    let mut filters = vec![];
    let mut last = get_filter_power(&filters);
    for y in random_layers() {
        filters.push(BlockFilter::new(0, y, 0, BlockType::OTHER, BedrockGeneration::Normal));
        let power = get_filter_power(&filters);
        assert!(power <= last);
        last = power;
    }
    let one = [BlockFilter::new(0, 4, 0, BlockType::BEDROCK, BedrockGeneration::Normal)];
    assert_eq!(get_filter_power(&one), machine_power(&one));
    assert_eq!(get_filter_power(&one), 56294995342131);
}

#[test]
fn binary64_agrees_with_the_machine() {
    let values = [1u64, 2, 3, 5, 7, 10, 1 << 20, (1 << 53) - 1, (1 << 53) + 1, MASK48, u64::MAX];
    for a in values {
        assert_eq!(number(Binary64::from_u64(a)), a as f64);
        for b in values {
            let (x, y) = (Binary64::from_u64(a), Binary64::from_u64(b));
            assert_eq!(number(x.mul(y)), a as f64 * b as f64);
            assert_eq!(number(x.div(y)), a as f64 / b as f64);
            assert_eq!(x.less_than(y), (a as f64) < b as f64);
            assert_eq!(x.div(y).to_u64(), (a as f64 / b as f64) as u64);
            assert_eq!(x.div(y).to_u64_up(), (a as f64 / b as f64).ceil() as u64);
            if a as f64 >= b as f64 {
                assert_eq!(number(x.sub(y)), a as f64 - b as f64);
            }
        }
    }
    assert_eq!(number(Binary64::one()), 1.0);
}

#[test]
fn the_discarded_share_tells_whether_a_check_follows() {
    for y in random_layers() {
        for block_type in [BlockType::BEDROCK, BlockType::OTHER] {
            let mut f = BlockFilter::new(2, y, 9, block_type, BedrockGeneration::Normal);
            for next in [12, 7, 0] {
                for bits in 0..28 {
                    let discarded = number(f.discarded_seeds(bits));
                    assert_eq!(discarded > 0.0, f.allows_check(bits));
                    assert!(discarded < (1u64 << bits) as f64);
                }
                if f.allows_check(next) {
                    f.create_check(next);
                }
            }
        }
    }
}
