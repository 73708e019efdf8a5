use bedrock_cracker::gpu::check_words;
use bedrock_cracker::gpu::filled;
use bedrock_cracker::gpu::seeds_of_words;
use bedrock_cracker::gpu::stats_of_words;
use bedrock_cracker::gpu::uniform_words;
use bedrock_cracker::shader::count_result;
use bedrock_cracker::shader::run_pass;
use bedrock_cracker::plan::block_starts;
use bedrock_cracker::plan::search_block;
use bedrock_cracker::block_data::BlockFilter;
use bedrock_cracker::block_data::CheckObject;
use bedrock_cracker::cross::passes_checks;
use bedrock_cracker::gpu::check_buffer;
use bedrock_cracker::gpu::cleared_buffer;
use bedrock_cracker::gpu::read_seeds;
use bedrock_cracker::gpu::read_stats;
use bedrock_cracker::gpu::u32x2_to_u64;
use bedrock_cracker::gpu::u64_to_u32x2;
use bedrock_cracker::gpu::uniform_buffer;
use bedrock_cracker::gpu::GpuCheckObject;
use bedrock_cracker::gpu::StatsReadback;
use bedrock_cracker::gpu_search::coarse_dispatch;
use bedrock_cracker::gpu_search::GpuRange;
use bedrock_cracker::gpu_search::GpuSearch;
use bedrock_cracker::gpu_search::PassResult;
use bedrock_cracker::gpu_search::MAX_COARSE;
use bedrock_cracker::gpu_search::MAX_FINE;
use bedrock_cracker::java::MASK48;
use bedrock_cracker::plan::block_candidates;
use bedrock_cracker::plan::plan_gpu_search;
use bedrock_cracker::raw_data::block::Block;
use bedrock_cracker::raw_data::block_type::BlockType;
use bedrock_cracker::raw_data::modes::BedrockGeneration;
use bedrock_cracker::shader::add64;
use bedrock_cracker::shader::and_mask48;
use bedrock_cracker::shader::check_fails;
use bedrock_cracker::shader::coarse_seed;
use bedrock_cracker::shader::fine_seed;
use bedrock_cracker::shader::less_than;
use bedrock_cracker::shader::main_coarse;
use bedrock_cracker::shader::main_fine;
use bedrock_cracker::shader::main_prepare_fine;
use bedrock_cracker::shader::mul32_wide;
use bedrock_cracker::shader::mul_lcg;
use bedrock_cracker::shader::xor64;
use bedrock_cracker::shader::Vec2;

fn bytes(words: &[u32]) -> Vec<u8> {
    words.iter().flat_map(|w| w.to_ne_bytes()).collect()
}

#[test]
fn words_join_to_the_number() {
    assert_eq!(u64_to_u32x2(0x0123_4567_89AB_CDEF), [0x89AB_CDEF, 0x0123_4567]);
    for val in [0, 1, u64::MAX, 1 << 32, 0xFFFF_FFFF, 0x0123_4567_89AB_CDEF] {
        assert_eq!(u32x2_to_u64(u64_to_u32x2(val)), val);
    }
    assert_eq!(u64_to_u32x2(u32x2_to_u64([7, 9])), [7, 9]);
}

#[test]
fn checks_in_words() {
    let check = CheckObject { pos_hash: 0x1_0000_0002, condition: 0x3_0000_0004, offset: 5 };
    let words = GpuCheckObject::from(check);
    assert_eq!(words.pos_hash, [2, 1]);
    assert_eq!(words.condition, [4, 3]);
    assert_eq!(words.offset, [5, 0]);
    assert_eq!(words._pad, [0, 0]);
    let other = CheckObject { pos_hash: 9, condition: 8, offset: 0x7_0000_0000 };
    assert_eq!(
        check_buffer(&[check, other]),
        bytes(&[2, 1, 4, 3, 5, 0, 0, 0, 9, 0, 8, 0, 0, 7, 0, 0])
    );
    assert_eq!(check_buffer(&[]), Vec::<u8>::new());
}

#[test]
fn buffers_of_a_pass() {
    let range = GpuRange { start: 0xF_C000_0001, len: 0x4000_0000 };
    assert_eq!(
        uniform_buffer(range, 3, 17),
        bytes(&[0xC000_0001, 0xF, 0x4000_0000, 3, 17, 0])
    );
    assert_eq!(cleared_buffer(), vec![0u8; 16]);
    assert_eq!(
        read_stats(&bytes(&[1, 0x0203_0405, 0, 6])),
        StatsReadback {
            coarse_count: 1,
            fine_count: 0x0203_0405,
            coarse_overflow: 0,
            fine_overflow: 6,
        }
    );
    assert_eq!(read_seeds(&bytes(&[1, 2, 0xFFFF_FFFF, 3])), vec![0x2_0000_0001, 0x3_FFFF_FFFF]);
    assert_eq!(read_seeds(&[]), Vec::<u64>::new());
    // Whatever the alignment.
    let mut shifted = vec![0u8];
    shifted.extend(bytes(&[1, 2]));
    assert_eq!(read_seeds(&shifted[1..]), vec![0x2_0000_0001]);
}

fn stats(fine_count: u32, coarse_overflow: u32, fine_overflow: u32) -> Option<StatsReadback> {
    Some(StatsReadback { coarse_count: 5, fine_count, coarse_overflow, fine_overflow })
}

#[test]
fn search_without_overflow() {
    let mut search = GpuSearch::new();
    let mut passes = 0;
    let mut end = 1u64 << 36;
    let mut sum = 0;
    while let Some(range) = search.current() {
        assert_eq!(range.len, 1 << 30);
        assert_eq!(range.start + range.len as u64, end);
        end = range.start;
        let found = if passes == 0 { MAX_FINE + 1 } else { 2 };
        match search.settle(stats(found, 0, 0)) {
            Some(PassResult::Searched { results, progress }) => {
                assert_eq!(results, if passes == 0 { MAX_FINE } else { 2 });
                assert_eq!(progress, 1 << 42);
                sum += progress;
            }
            other => panic!("unexpected {:?}", other),
        }
        passes += 1;
    }
    assert_eq!(passes, 64);
    assert_eq!(end, 0);
    assert_eq!(sum, 1 << 48);
    assert_eq!(search.candidate_count(), MAX_FINE as u64 + 1 + 63 * 2);
    assert_eq!(search.range_count(), 64);
    assert_eq!(search.settle(None), None);
}

#[test]
fn overflowing_ranges_are_halved() {
    let mut search = GpuSearch::new();
    let first = search.current().unwrap();
    assert_eq!(first, GpuRange { start: 63 << 30, len: 1 << 30 });
    assert_eq!(search.settle(stats(9, 1, 0)), Some(PassResult::Halved));
    let upper = search.current().unwrap();
    assert_eq!(upper, GpuRange { start: (63 << 30) + (1 << 29), len: 1 << 29 });
    assert_eq!(search.settle(None), Some(PassResult::Halved));
    assert_eq!(search.settle(stats(1, 0, 3)), Some(PassResult::Halved));
    let mut range = search.current().unwrap();
    while range.len > 1 << 18 {
        assert_eq!(search.settle(stats(0, 1, 1)), Some(PassResult::Halved));
        range = search.current().unwrap();
    }
    assert_eq!(range, GpuRange { start: (1 << 36) - (1 << 18), len: 1 << 18 });
    assert_eq!(search.settle(None), Some(PassResult::GaveUp(range)));
    assert_eq!(search.range_count(), 0);
    assert_eq!(search.candidate_count(), 0);
    assert_eq!(search.current().unwrap().start, (1 << 36) - (2 << 18));
}

#[test]
fn ranges_are_handled_once_and_the_search_ends() {
    for rule in 0..3u64 {
        let mut search = GpuSearch::new();
        let mut end = 1u64 << 36;
        let mut passes = 0u64;
        while let Some(range) = search.current() {
            passes += 1;
            let overflow = match rule {
                0 => true,
                1 => range.start % 3 == 0,
                _ => passes % 5 == 0,
            };
            let result = search.settle(if overflow { None } else { stats(0, 0, 0) });
            if result != Some(PassResult::Halved) {
                assert_eq!(range.start + range.len as u64, end);
                end = range.start;
            }
        }
        assert_eq!(end, 0);
        assert!(passes <= 1048512);
        if rule == 0 {
            assert_eq!(passes, 64 * (2 * 4096 - 1));
        }
    }
}

#[test]
fn dispatch_reaches_every_index() {
    let (dx, dy) = coarse_dispatch();
    assert_eq!((dx, dy), (65535, 65));
    let row = dx as u64 * 256;
    assert!(row * dy as u64 >= 1 << 30);
    assert!(row * dy as u64 <= 1 << 32);
    assert!(row * (dy as u64 - 1) < 1 << 30);
}

#[test]
fn fine_groups_reach_every_result() {
    assert_eq!(main_prepare_fine(0, MAX_COARSE), (0, 0, 0));
    assert_eq!(main_prepare_fine(1, MAX_COARSE), (1, 1, 1));
    assert_eq!(main_prepare_fine(65535, MAX_COARSE), (65535, 1, 1));
    assert_eq!(main_prepare_fine(65536, MAX_COARSE), (65535, 2, 1));
    assert_eq!(main_prepare_fine(MAX_COARSE, MAX_COARSE), (65535, 257, 1));
    assert_eq!(main_prepare_fine(u32::MAX, MAX_COARSE), (65535, 257, 1));
    let (x, y, _) = main_prepare_fine(200_000, MAX_COARSE);
    let reached = (0..y).flat_map(|l| (0..x).map(move |c| c + l * x)).filter(|i| *i < 200_000);
    assert_eq!(reached.count(), 200_000);
}

fn whole(v: Vec2) -> u64 {
    u32x2_to_u64([v.x, v.y])
}

fn samples() -> Vec<u64> {
    let mut all = vec![0, 1, u64::MAX, 0xFFFF_FFFF, 0x1_0000_0000, MASK48, 0x8000_0000_8000_0000];
    let mut seed: u64 = 17;
    for _ in 0..60 {
        seed = seed.wrapping_mul(6364136223846793005).wrapping_add(1442695040888963407);
        all.push(seed);
    }
    all
}

#[test]
fn shader_arithmetic() {
    for a in samples() {
        assert_eq!(whole(mul_lcg(Vec2::of(a))), a.wrapping_mul(0x5DEECE66D));
        assert_eq!(whole(and_mask48(Vec2::of(a))), a & MASK48);
        for b in samples() {
            assert_eq!(whole(add64(Vec2::of(a), Vec2::of(b))), a.wrapping_add(b));
            assert_eq!(whole(xor64(Vec2::of(a), Vec2::of(b))), a ^ b);
            assert_eq!(less_than(Vec2::of(a), Vec2::of(b)), a < b);
            assert_eq!(
                whole(mul32_wide(a as u32, b as u32)),
                (a as u32) as u64 * (b as u32) as u64
            );
        }
    }
}

#[test]
fn shader_check_is_the_check() {
    for y in [1, 4, 123, 126] {
        let check = BlockFilter::new(8, y, -8, BlockType::OTHER, BedrockGeneration::Normal)
            .create_check(0);
        for seed in samples() {
            assert_eq!(check_fails(Vec2::of(seed), &check), check.check(seed));
        }
    }
}

#[test]
fn shader_seeds() {
    for base in [0u64, 5, 0xFFFF_FFFF, 0xF_FFFF_0000] {
        for index in [0u32, 1, 0xFFFF] {
            let upper = base + index as u64;
            assert_eq!(whole(coarse_seed(Vec2::of(base), index)), (upper << 12) & MASK48);
            assert_eq!(
                whole(fine_seed(Vec2::of(base), index, 0xABC)),
                (upper << 12) & MASK48 | 0xABC
            );
        }
    }
}

#[test]
fn the_coarse_pass_loses_nothing() {
    let mode = BedrockGeneration::Normal;
    let blocks: Vec<Block> =
        (0..5).map(|i| Block::new(i, 4, 3 * i, BlockType::BEDROCK)).collect();
    let plan = plan_gpu_search(&blocks, mode);
    assert_eq!(plan.coarse_checks.len(), 5);
    let (mut kept, mut dropped, mut seeds) = (0, 0, 0);
    for k in 0..200u64 {
        let base = k * 0x1_2345_6789 % ((1 << 36) - 10);
        for index in 0..10u32 {
            let first = (base + index as u64) << 12;
            let expected = block_candidates(&plan.fine_checks, first);
            if main_coarse(Vec2::of(base), 10, index, &plan.coarse_checks) {
                kept += 1;
                let found = main_fine(Vec2::of(base), index, &plan.fine_checks);
                assert_eq!(found, expected);
                assert!(found.iter().all(|s| passes_checks(&plan.fine_checks, *s)));
                seeds += found.len();
            } else {
                dropped += 1;
                assert!(expected.is_empty());
            }
        }
    }
    assert!(kept > 0 && dropped > 0 && seeds > 0, "{} {} {}", kept, dropped, seeds);
    assert!(!main_coarse(Vec2::of(0), 3000, 3000, &[]));
    assert!(main_coarse(Vec2::of(0), 3000, 2999, &[]));
}

#[test]
fn the_search_ends_when_nobody_listens() {
    let mut search = GpuSearch::new();
    let mut reports = vec![];
    while search.current().is_some() {
        if let Some(PassResult::Searched { results, progress }) = search.settle(stats(0, 0, 0)) {
            assert_eq!(results, 0);
            reports.push(progress);
            search.answered(false);
        }
    }
    assert_eq!(reports, vec![1u64 << 42]);
    assert_eq!(search.range_count(), 1);
    let mut search = GpuSearch::new();
    let mut reports = vec![];
    while search.current().is_some() {
        if let Some(PassResult::Searched { progress, .. }) = search.settle(stats(0, 0, 0)) {
            reports.push(progress);
            search.answered(true);
        }
    }
    assert_eq!(reports, vec![1u64 << 42; 64]);
}

#[test]
fn both_searches_find_the_same_seeds() {
    let mode = BedrockGeneration::Normal;
    let blocks: Vec<Block> =
        (0..4).map(|i| Block::new(3 * i, 4, -i, BlockType::BEDROCK)).collect();
    let plan = plan_gpu_search(&blocks, mode);
    let mut seeds = 0;
    for k in 0..200u64 {
        let start = k * 0x1_2345_6789 % ((1 << 36) - 16);
        let range = GpuRange { start, len: 16 };
        let mut on_gpu = vec![];
        for index in 0..range.len {
            if main_coarse(Vec2::of(range.start), range.len, index, &plan.coarse_checks) {
                on_gpu.extend(main_fine(Vec2::of(range.start), index, &plan.fine_checks));
            }
        }
        let mut on_threads = vec![];
        for upper in block_starts(start << 12, (start + 16) << 12) {
            on_threads.extend(search_block(&plan.coarse_checks, &plan.fine_checks, upper));
        }
        assert_eq!(on_gpu, on_threads);
        let expected: Vec<u64> = (start << 12..(start + 16) << 12)
            .filter(|s| passes_checks(&plan.fine_checks, *s))
            .collect();
        assert_eq!(on_gpu, expected);
        seeds += expected.len();
    }
    assert!(seeds > 0);
    let never = CheckObject { pos_hash: 0, condition: u64::MAX, offset: 0 };
    assert_eq!(search_block(&[never], &[], 0), Vec::<u64>::new());
    assert_eq!(search_block(&[], &[never], 0), Vec::<u64>::new());
    assert!(!main_coarse(Vec2::of(0), 1, 0, &[never]));
}

#[test]
fn words_of_buffers() {
    let check = CheckObject { pos_hash: 0x1_0000_0002, condition: 0x3_0000_0004, offset: 5 };
    assert_eq!(check_words(&[check]), vec![2, 1, 4, 3, 5, 0, 0, 0]);
    let range = GpuRange { start: 0xF_C000_0001, len: 7 };
    assert_eq!(uniform_words(range, 3, 17), vec![0xC000_0001, 0xF, 7, 3, 17, 0]);
    let s = stats_of_words(&[1, 2, 3, 4]);
    assert_eq!((s.coarse_count, s.fine_count, s.coarse_overflow, s.fine_overflow), (1, 2, 3, 4));
    assert_eq!(seeds_of_words(&[1, 2, 3, 4]), vec![0x2_0000_0001, 0x4_0000_0003]);
}

#[test]
fn a_machine_reads_back_what_it_wrote() {
    let check = CheckObject {
        pos_hash: 0x0123_4567_89AB_CDEF,
        condition: 0xFEDC_BA98_7654_3210,
        offset: 0x1122_3344_5566_7788,
    };
    assert_eq!(
        read_seeds(&check_buffer(&[check])),
        vec![check.pos_hash, check.condition, check.offset, 0]
    );
    let bytes = uniform_buffer(GpuRange { start: 0x5_0607_0809, len: 0x0A0B_0C0D }, 14, 15);
    let words = read_stats(&bytes[..16]);
    assert_eq!(words.coarse_count, 0x0607_0809);
    assert_eq!(words.fine_count, 5);
    assert_eq!(words.coarse_overflow, 0x0A0B_0C0D);
    assert_eq!(words.fine_overflow, 14);
}

#[test]
fn lists_of_checks_are_not_empty() {
    assert_eq!(filled(vec![]), vec![CheckObject::default()]);
    let check = CheckObject { pos_hash: 1, condition: 2, offset: 3 };
    assert_eq!(filled(vec![check]), vec![check]);
    assert!(passes_checks(&filled(vec![]), 12345));
}

#[test]
fn counters_of_a_pass() {
    let mode = BedrockGeneration::Normal;
    let blocks: Vec<Block> =
        (0..2).map(|i| Block::new(5 * i, 4, i, BlockType::BEDROCK)).collect();
    let plan = plan_gpu_search(&blocks, mode);
    let mut tried = 0;
    for k in 0..40u64 {
        let start = k * 0x1_2345_6789 % ((1 << 36) - 16);
        let range = GpuRange { start, len: 16 };
        let kept = (0..16)
            .filter(|i| main_coarse(Vec2::of(start), 16, *i, &plan.coarse_checks))
            .count() as u32;
        let seeds: Vec<u64> = (start << 12..(start + 16) << 12)
            .filter(|s| passes_checks(&plan.fine_checks, *s))
            .collect();
        let found = seeds.len() as u32;
        let pass = |max_coarse: u32, max_fine: u32| {
            run_pass(range, &plan.coarse_checks, &plan.fine_checks, max_coarse, max_fine)
        };
        let wide = pass(MAX_COARSE, MAX_FINE);
        assert_eq!(
            wide.stats,
            StatsReadback {
                coarse_count: kept,
                fine_count: found,
                coarse_overflow: 0,
                fine_overflow: 0,
            }
        );
        assert_eq!(wide.seeds, seeds);
        let exact = pass(kept, found);
        assert_eq!(exact.stats, wide.stats);
        assert_eq!(exact.seeds, seeds);
        if kept > 0 && found > 0 {
            tried += 1;
            let fine = pass(kept, found - 1);
            assert_eq!(fine.stats.fine_overflow, 1);
            assert_eq!(fine.stats.coarse_overflow, 0);
            assert_eq!(fine.stats.fine_count, found);
            let coarse = pass(kept - 1, found);
            assert_eq!(coarse.stats.coarse_overflow, 1);
            assert_eq!(coarse.stats.coarse_count, kept);
        }
    }
    assert!(tried > 0);
    assert_eq!(count_result(4, 0, 5), (5, 0));
    assert_eq!(count_result(5, 0, 5), (6, 1));
    assert_eq!(count_result(u32::MAX, 1, 5), (0, 1));
}

#[test]
fn short_ranges_overflow_by_their_seeds_alone() {
    // Without checks every seed is kept.
    let range = GpuRange { start: 7, len: 3 };
    let pass = run_pass(range, &[], &[], 3, 3 * 4096);
    assert_eq!(pass.stats.fine_overflow, 0);
    assert_eq!(pass.seeds, (7 << 12..10 << 12).collect::<Vec<u64>>());
    let pass = run_pass(range, &[], &[], 3, 3 * 4096 - 1);
    assert_eq!(pass.stats.fine_overflow, 1);
    assert_eq!(pass.stats.fine_count, 3 * 4096);
    let mut search = GpuSearch::new();
    assert_eq!(search.settle(Some(pass.stats)), Some(PassResult::Halved));
}
