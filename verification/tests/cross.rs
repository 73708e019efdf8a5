use bedrock_cracker::cross::answer;
use bedrock_cracker::plan::thread_range;
use bedrock_cracker::cross::check_structure_seed;
use bedrock_cracker::cross::passes_checks;
use bedrock_cracker::cross::GpuCrossComparisonSender;
use bedrock_cracker::cross::FLOOR_HASH;
use bedrock_cracker::cross::ROOF_HASH;
use bedrock_cracker::block_data::BlockFilter;
use bedrock_cracker::block_data::CheckObject;
use bedrock_cracker::java::next_long;
use bedrock_cracker::java::next_long_fits;
use bedrock_cracker::java::reverse_next_long;
use bedrock_cracker::java::MASK48;
use bedrock_cracker::plan::block_candidates;
use bedrock_cracker::plan::block_starts;
use bedrock_cracker::plan::list_checks;
use bedrock_cracker::plan::plan_gpu_search;
use bedrock_cracker::plan::split_floor_roof;
use bedrock_cracker::plan::ChunkWalk;
use bedrock_cracker::raw_data::block::Block;
use bedrock_cracker::raw_data::block_type::BlockType;
use bedrock_cracker::raw_data::modes::BedrockGeneration;
use bedrock_cracker::raw_data::modes::OutputMode;
use bedrock_cracker::CrackProgress;
use std::sync::mpsc;

const WORLD_SEED: u64 = 765906787396911863;

#[test]
fn test_split_floor_roof() {
    let blocks = vec![
        Block::new(0, 4, 0, BlockType::BEDROCK),
        Block::new(0, 123, 0, BlockType::BEDROCK),
        Block::new(1, 1, 1, BlockType::OTHER),
        Block::new(1, 126, 1, BlockType::OTHER),
    ];

    let (floor, roof) = split_floor_roof(&blocks, BedrockGeneration::Normal);

    assert_eq!(floor.len(), 2, "Should have 2 floor blocks");
    assert_eq!(roof.len(), 2, "Should have 2 roof blocks");
    assert_eq!(floor[1], BlockFilter::from(&blocks[2], BedrockGeneration::Normal));
    assert_eq!(roof[0], BlockFilter::from(&blocks[1], BedrockGeneration::Normal));
}

#[test]
fn test_cross_comparison_sender() {
    let (tx, _rx) = mpsc::channel::<CrackProgress>();

    let sender = GpuCrossComparisonSender::new(
        tx,
        vec![],
        true,
        OutputMode::WorldSeed,
    );

    assert!(sender.check_secondary(0));
}

/// `java.util.Random` written out.
fn java_long(seed: u64) -> u64 {
    let step = |s: u64| s.wrapping_mul(0x5DEECE66D).wrapping_add(11) & MASK48;
    let s1 = step((seed ^ 0x5DEECE66D) & MASK48);
    let s2 = step(s1);
    let half = |s: u64| (s >> 16) as u32 as i32 as i64;
    ((half(s1) << 32).wrapping_add(half(s2))) as u64
}

#[test]
fn next_long_is_that_of_java() {
    assert_eq!(next_long(0), (-4962768465676381896i64) as u64);
    assert_eq!(next_long(42), (-5025562857975149833i64) as u64);
    let mut seed: u64 = 5;
    for _ in 0..2000 {
        seed = seed.wrapping_mul(6364136223846793005).wrapping_add(1442695040888963407);
        assert!(next_long_fits(seed));
        assert_eq!(next_long(seed), java_long(seed));
    }
}

/// Undoes one step of the generator.
fn step_back(s: u64) -> u64 {
    s.wrapping_sub(11).wrapping_mul(246154705703781) & MASK48
}

#[test]
fn undefined_longs_are_told_apart() {
    let step = |s: u64| s.wrapping_mul(0x5DEECE66D).wrapping_add(11) & MASK48;
    let mut negative = 0;
    let mut positive = 0;
    for low in (0..65536u64).step_by(331) {
        let first = (0x8000_0000u64 << 16) | low;
        let seed = step_back(first) ^ 0x5DEECE66D;
        assert_eq!(step(seed ^ 0x5DEECE66D), first);
        let second = (step(first) >> 16) as u32 as i32;
        assert_eq!(next_long_fits(seed), second >= 0);
        if second >= 0 {
            assert_eq!(next_long(seed), java_long(seed));
            positive += 1;
        } else {
            negative += 1;
        }
    }
    assert!(positive > 0 && negative > 0);
}

#[test]
fn reversing_finds_the_seed() {
    let mut seed: u64 = 11;
    let mut several = 0;
    let mut none = 0;
    for _ in 0..3000 {
        seed = seed.wrapping_mul(6364136223846793005).wrapping_add(1442695040888963407);
        let s = seed >> 16;
        let value = next_long(s);
        let found = reverse_next_long(value);
        assert!(found.contains(&s));
        assert_eq!(found, reverse_next_long(value & MASK48));
        for (i, t) in found.iter().enumerate() {
            assert!(*t <= MASK48);
            assert_eq!(next_long(*t) & MASK48, value & MASK48);
            assert!(!found[..i].contains(t));
        }
        if found.len() > 1 {
            several += 1;
        }
        if reverse_next_long(s).is_empty() {
            none += 1;
        }
    }
    assert!(several > 0);
    assert!(none > 0);
}

fn structure_seed() -> u64 {
    WORLD_SEED & MASK48
}

fn surface(hash: u64) -> u64 {
    let bedrock = java_long(structure_seed()) & MASK48;
    java_long(bedrock ^ hash) & MASK48
}

/// The blocks that the world shows at some positions.
fn observed(mode: BedrockGeneration) -> Vec<Block> {
    let mut blocks = vec![];
    for i in 0..60 {
        let (x, z) = (i * 7 - 100, 55 - i * 3);
        for (y, hash) in [(1 + i % 4, FLOOR_HASH), (123 + i % 4, ROOF_HASH)] {
            let block = Block::new(x, y, z, BlockType::BEDROCK);
            let check = BlockFilter::from(&block, mode).create_check(0);
            if check.check(surface(hash)) {
                blocks.push(Block::new(x, y, z, BlockType::OTHER));
            } else {
                blocks.push(block);
            }
        }
    }
    blocks
}

#[test]
fn surfaces_of_the_world() {
    assert_eq!(structure_seed(), 13375767216887);
    assert_eq!(surface(FLOOR_HASH), 18240473916414);
    assert_eq!(surface(ROOF_HASH), 191924403737289);
}

#[test]
fn world_seed_is_found_from_its_blocks() {
    for mode in [BedrockGeneration::Normal, BedrockGeneration::Paper1_18] {
        let plan = plan_gpu_search(&observed(mode), mode);
        let (primary, secondary) = if plan.is_floor_primary {
            (surface(FLOOR_HASH), surface(ROOF_HASH))
        } else {
            (surface(ROOF_HASH), surface(FLOOR_HASH))
        };
        assert!(passes_checks(&plan.coarse_checks, primary & !0xFFF));
        assert!(passes_checks(&plan.fine_checks, primary));
        assert!(passes_checks(&plan.secondary_checks, secondary));
        assert!(!passes_checks(&plan.fine_checks, primary ^ (1 << 45)));
        let worlds = GpuCrossComparisonSender::new(
            (),
            plan.secondary_checks.clone(),
            plan.is_floor_primary,
            OutputMode::WorldSeed,
        );
        let found = worlds.try_process_candidate(primary).unwrap();
        assert_eq!(found, vec![WORLD_SEED]);
        assert_eq!(worlds.process_candidate(primary), found);
        let structures = GpuCrossComparisonSender::new(
            (),
            plan.secondary_checks.clone(),
            plan.is_floor_primary,
            OutputMode::StructureSeed,
        );
        assert_eq!(structures.process_candidate(primary), vec![structure_seed()]);
        assert_eq!(structures.process_candidate(primary ^ (1 << 45)), Vec::<u64>::new());
    }
}

#[test]
fn a_worker_finds_the_surface_seed() {
    let mode = BedrockGeneration::Normal;
    let plan = plan_gpu_search(&observed(mode), mode);
    let hash = if plan.is_floor_primary { FLOOR_HASH } else { ROOF_HASH };
    let seed = surface(hash);
    let mut found = 0;
    for thread in 0..1000 {
        let mut walk = ChunkWalk::new(thread, 1000);
        if seed < walk.current || seed >= walk.limit {
            continue;
        }
        while let Some((start, end)) = walk.next_chunk() {
            if start <= seed && seed < end {
                let block = block_starts(start, end)[((seed - start) / 4096) as usize];
                assert!(block_candidates(&plan.fine_checks, block).contains(&seed));
                found += 1;
            }
        }
    }
    assert_eq!(found, 1);
}

#[test]
fn outgoing_reports() {
    let sender = GpuCrossComparisonSender::new(
        (),
        plan_gpu_search(&observed(BedrockGeneration::Normal), BedrockGeneration::Normal)
            .secondary_checks,
        false,
        OutputMode::WorldSeed,
    );
    assert_eq!(
        sender.outgoing(CrackProgress::Progress(77)),
        Some(vec![CrackProgress::Progress(77)])
    );
    let open = GpuCrossComparisonSender::new((), vec![], true, OutputMode::WorldSeed);
    let reports = open.outgoing(CrackProgress::Seed(surface(FLOOR_HASH))).unwrap();
    assert!(reports.contains(&CrackProgress::Seed(WORLD_SEED)));
    let seeds = open.process_candidate(surface(FLOOR_HASH));
    assert_eq!(reports.len(), seeds.len());
}

#[test]
fn hashes_follow_the_primary_surface() {
    let a = GpuCrossComparisonSender::new((), vec![], true, OutputMode::WorldSeed);
    assert_eq!((a.primary_hash, a.secondary_hash), (FLOOR_HASH, ROOF_HASH));
    let b = GpuCrossComparisonSender::new((), vec![], false, OutputMode::WorldSeed);
    assert_eq!((b.primary_hash, b.secondary_hash), (ROOF_HASH, FLOOR_HASH));
    let never = CheckObject { pos_hash: 0, condition: u64::MAX, offset: 0 };
    let c = GpuCrossComparisonSender::new((), vec![never], true, OutputMode::WorldSeed);
    assert!(!c.check_secondary(0));
    assert_eq!(c.process_candidate(surface(FLOOR_HASH)), Vec::<u64>::new());
}

#[test]
fn every_reported_seed_explains_the_candidate() {
    let open = GpuCrossComparisonSender::new((), vec![], true, OutputMode::StructureSeed);
    let mut seed: u64 = 3;
    let mut found = 0;
    for _ in 0..300 {
        seed = seed.wrapping_mul(6364136223846793005).wrapping_add(1442695040888963407);
        let candidate = seed >> 16;
        for t in open.process_candidate(candidate) {
            let bedrock = java_long(t) & MASK48;
            assert_eq!(java_long(bedrock ^ FLOOR_HASH) & MASK48, candidate);
            found += 1;
        }
    }
    assert!(found > 0);
}

#[test]
fn a_candidate_with_an_undefined_long_is_reported() {
    // A floor seed whose secondary surface needs a long that does not fit.
    let mut refused = 0;
    for low in (0..65536u64).step_by(331) {
        let first = (0x8000_0000u64 << 16) | low;
        let input = step_back(first) ^ 0x5DEECE66D;
        if next_long_fits(input) {
            continue;
        }
        let bedrock = input ^ ROOF_HASH;
        if !next_long_fits(bedrock ^ FLOOR_HASH) {
            continue;
        }
        let candidate = next_long(bedrock ^ FLOOR_HASH) & MASK48;
        let open = GpuCrossComparisonSender::new((), vec![], true, OutputMode::StructureSeed);
        assert_eq!(open.try_process_candidate(candidate), None);
        assert_eq!(open.outgoing(CrackProgress::Seed(candidate)), None);
        refused += 1;
    }
    assert!(refused > 0);
}

#[test]
fn structure_seeds_of_a_list() {
    let mode = BedrockGeneration::Normal;
    let (roof, floor) = list_checks(&observed(mode), mode);
    assert_eq!((roof.len(), floor.len()), (60, 60));
    assert_eq!(check_structure_seed(structure_seed(), &roof, &floor), Some(true));
    assert_eq!(check_structure_seed(structure_seed() + 1, &roof, &floor), Some(false));
    assert_eq!(check_structure_seed(structure_seed() + 1, &[], &[]), Some(true));
}

#[test]
fn list_checks_split_at_layer_five() {
    let blocks = [
        Block::new(0, 3, 0, BlockType::BEDROCK),
        Block::new(0, 60, 0, BlockType::OTHER),
        Block::new(0, 124, 0, BlockType::OTHER),
    ];
    let mode = BedrockGeneration::Normal;
    let (floor, roof) = split_floor_roof(&blocks, mode);
    assert_eq!((floor.len(), roof.len()), (2, 1));
    let usable = [blocks[0], blocks[2]];
    let (roof, floor) = list_checks(&usable, mode);
    assert_eq!(roof, vec![BlockFilter::from(&blocks[2], mode).create_check(0)]);
    assert_eq!(floor, vec![BlockFilter::from(&blocks[0], mode).create_check(0)]);
}

#[test]
fn answers_of_the_cross_comparison() {
    assert!(answer(CrackProgress::Seed(1), true));
    assert!(answer(CrackProgress::Seed(1), false));
    assert!(answer(CrackProgress::Progress(1), true));
    assert!(!answer(CrackProgress::Progress(1), false));
}

/// The progress that a worker reports until it is answered false.
fn reports_of_worker(thread: u64, thread_count: u64, unheard: usize) -> Vec<u64> {
    let mut walk = ChunkWalk::new(thread, thread_count);
    let mut reports = vec![];
    while let Some((start, end)) = walk.next_chunk() {
        walk.answered(reports.len() != unheard);
        reports.push(end - start);
    }
    reports
}

#[test]
fn a_worker_stops_when_nobody_listens() {
    for thread_count in [1u64, 3, 1000, 1 << 23] {
        for thread in [0, thread_count / 2, thread_count - 1] {
            assert_eq!(reports_of_worker(thread, thread_count, 0), vec![33554432]);
        }
    }
    assert_eq!(reports_of_worker(5, 1000, 2), vec![33554432; 3]);
    let all = reports_of_worker(5, 100_000, usize::MAX);
    assert!(all.len() > 1);
    let (start, end) = thread_range(5, 100_000);
    assert_eq!(all.iter().sum::<u64>(), end - start);
    let mut walk = ChunkWalk::new(0, 2);
    walk.answered(false);
    assert_eq!(walk.next_chunk(), None);
}
